//! Lexical analysis.
//!
//! A scanner handles the within-line tokens by longest match; a wrapper layer
//! tracks an indentation stack (`Vec<usize>`) and emits `Indent` / `Dedent`
//! tokens Python-style. Newlines inside parentheses or brackets are joined
//! implicitly.
use vstd::prelude::*;
use crate::diag::{Diagnostic, Fault, Span};
use crate::text::{
    byte_len, bytes_between, capped, cat3, chars_of, dec, dec_i64, dec_int, dec_usize, lines,
    nested, same, split_lines, text_of, width,
};

verus! {

#[derive(Debug, Clone, PartialEq)]
pub enum TokKind {
    // Keywords
    Fn,
    Extern,
    Struct,
    Enum,
    Match,
    Let,
    Return,
    If,
    Elif,
    Else,
    While,
    For,
    In,
    Break,
    Continue,
    True,
    False,
    And,
    Or,
    Not,
    // Literals
    /// A floating-point literal, as the decimal text it was written with.
    Float(String),
    Int(i64),
    Str(String),
    /// An interpolated literal `f"..."`, unescaped, without its quotes.
    FStr(String),
    Ident(String),
    // Operators and punctuation
    Plus,
    Minus,
    Star,
    Slash,
    Percent,
    EqEq,
    NotEq,
    Le,
    Ge,
    Lt,
    Gt,
    Assign,
    Arrow,
    Colon,
    Comma,
    LParen,
    RParen,
    LBracket,
    RBracket,
    Ellipsis,
    Dot,
    // Structural tokens emitted by the indentation layer.
    Newline,
    Indent,
    Dedent,
    Eof,
}

/// A token kind as a value of mathematics.
#[verifier::ext_equal]
pub enum TokV {
    // Keywords
    Fn,
    Extern,
    Struct,
    Enum,
    Match,
    Let,
    Return,
    If,
    Elif,
    Else,
    While,
    For,
    In,
    Break,
    Continue,
    True,
    False,
    And,
    Or,
    Not,
    // Literals
    /// A floating-point literal, as the decimal text it was written with.
    Float(Seq<char>),
    Int(i64),
    Str(Seq<char>),
    /// An interpolated literal `f"..."`, unescaped, without its quotes.
    FStr(Seq<char>),
    Ident(Seq<char>),
    // Operators and punctuation
    Plus,
    Minus,
    Star,
    Slash,
    Percent,
    EqEq,
    NotEq,
    Le,
    Ge,
    Lt,
    Gt,
    Assign,
    Arrow,
    Colon,
    Comma,
    LParen,
    RParen,
    LBracket,
    RBracket,
    Ellipsis,
    Dot,
    // Structural tokens emitted by the indentation layer.
    Newline,
    Indent,
    Dedent,
    Eof,
}

impl TokKind {
    pub open spec fn view(&self) -> TokV {
        match *self {
            TokKind::Float(s) => TokV::Float(s@),
            TokKind::Int(n) => TokV::Int(n),
            TokKind::Str(s) => TokV::Str(s@),
            TokKind::FStr(s) => TokV::FStr(s@),
            TokKind::Ident(s) => TokV::Ident(s@),
            TokKind::Fn => TokV::Fn,
            TokKind::Extern => TokV::Extern,
            TokKind::Struct => TokV::Struct,
            TokKind::Enum => TokV::Enum,
            TokKind::Match => TokV::Match,
            TokKind::Let => TokV::Let,
            TokKind::Return => TokV::Return,
            TokKind::If => TokV::If,
            TokKind::Elif => TokV::Elif,
            TokKind::Else => TokV::Else,
            TokKind::While => TokV::While,
            TokKind::For => TokV::For,
            TokKind::In => TokV::In,
            TokKind::Break => TokV::Break,
            TokKind::Continue => TokV::Continue,
            TokKind::True => TokV::True,
            TokKind::False => TokV::False,
            TokKind::And => TokV::And,
            TokKind::Or => TokV::Or,
            TokKind::Not => TokV::Not,
            TokKind::Plus => TokV::Plus,
            TokKind::Minus => TokV::Minus,
            TokKind::Star => TokV::Star,
            TokKind::Slash => TokV::Slash,
            TokKind::Percent => TokV::Percent,
            TokKind::EqEq => TokV::EqEq,
            TokKind::NotEq => TokV::NotEq,
            TokKind::Le => TokV::Le,
            TokKind::Ge => TokV::Ge,
            TokKind::Lt => TokV::Lt,
            TokKind::Gt => TokV::Gt,
            TokKind::Assign => TokV::Assign,
            TokKind::Arrow => TokV::Arrow,
            TokKind::Colon => TokV::Colon,
            TokKind::Comma => TokV::Comma,
            TokKind::LParen => TokV::LParen,
            TokKind::RParen => TokV::RParen,
            TokKind::LBracket => TokV::LBracket,
            TokKind::RBracket => TokV::RBracket,
            TokKind::Ellipsis => TokV::Ellipsis,
            TokKind::Dot => TokV::Dot,
            TokKind::Newline => TokV::Newline,
            TokKind::Indent => TokV::Indent,
            TokKind::Dedent => TokV::Dedent,
            TokKind::Eof => TokV::Eof,
        }
    }

    /// A number for the variant at hand.
    pub fn tag(&self) -> (n: u8)
        ensures
            n == self@.tag(),
    {
        match self {
            TokKind::Float(_) => 0,
            TokKind::Int(_) => 1,
            TokKind::Str(_) => 2,
            TokKind::FStr(_) => 3,
            TokKind::Ident(_) => 4,
            TokKind::Fn => 5,
            TokKind::Extern => 6,
            TokKind::Struct => 7,
            TokKind::Enum => 8,
            TokKind::Match => 9,
            TokKind::Let => 10,
            TokKind::Return => 11,
            TokKind::If => 12,
            TokKind::Elif => 13,
            TokKind::Else => 14,
            TokKind::While => 15,
            TokKind::For => 16,
            TokKind::In => 17,
            TokKind::Break => 18,
            TokKind::Continue => 19,
            TokKind::True => 20,
            TokKind::False => 21,
            TokKind::And => 22,
            TokKind::Or => 23,
            TokKind::Not => 24,
            TokKind::Plus => 25,
            TokKind::Minus => 26,
            TokKind::Star => 27,
            TokKind::Slash => 28,
            TokKind::Percent => 29,
            TokKind::EqEq => 30,
            TokKind::NotEq => 31,
            TokKind::Le => 32,
            TokKind::Ge => 33,
            TokKind::Lt => 34,
            TokKind::Gt => 35,
            TokKind::Assign => 36,
            TokKind::Arrow => 37,
            TokKind::Colon => 38,
            TokKind::Comma => 39,
            TokKind::LParen => 40,
            TokKind::RParen => 41,
            TokKind::LBracket => 42,
            TokKind::RBracket => 43,
            TokKind::Ellipsis => 44,
            TokKind::Dot => 45,
            TokKind::Newline => 46,
            TokKind::Indent => 47,
            TokKind::Dedent => 48,
            TokKind::Eof => 49,
        }
    }

    /// Whether this token is the keyword, mark or structural token `kind`.
    pub fn is(&self, kind: &TokKind) -> (b: bool)
        requires
            kind@.plain(),
        ensures
            b == (self@ == kind@),
    {
        proof {
            lemma_plain_tag(self@, kind@);
        }
        self.tag() == kind.tag()
    }

    /// The token as diagnostics name it.
    pub fn to_text(&self) -> (s: String)
        ensures
            s@ == self@.shown(),
    {
        match self {
            TokKind::Ident(s) => cat3("identifier `", s.as_str(), "`"),
            TokKind::Int(n) => cat3("integer `", dec_i64(*n).as_str(), "`"),
            TokKind::Float(s) => cat3("float `", s.as_str(), "`"),
            TokKind::Str(_) => String::from_str("string literal"),
            TokKind::FStr(_) => String::from_str("string literal"),
            TokKind::Newline => String::from_str("newline"),
            TokKind::Indent => String::from_str("indent"),
            TokKind::Dedent => String::from_str("dedent"),
            TokKind::Eof => String::from_str("end of file"),
            TokKind::Fn => String::from_str("`Fn`"),
            TokKind::Extern => String::from_str("`Extern`"),
            TokKind::Struct => String::from_str("`Struct`"),
            TokKind::Enum => String::from_str("`Enum`"),
            TokKind::Match => String::from_str("`Match`"),
            TokKind::Let => String::from_str("`Let`"),
            TokKind::Return => String::from_str("`Return`"),
            TokKind::If => String::from_str("`If`"),
            TokKind::Elif => String::from_str("`Elif`"),
            TokKind::Else => String::from_str("`Else`"),
            TokKind::While => String::from_str("`While`"),
            TokKind::For => String::from_str("`For`"),
            TokKind::In => String::from_str("`In`"),
            TokKind::Break => String::from_str("`Break`"),
            TokKind::Continue => String::from_str("`Continue`"),
            TokKind::True => String::from_str("`True`"),
            TokKind::False => String::from_str("`False`"),
            TokKind::And => String::from_str("`And`"),
            TokKind::Or => String::from_str("`Or`"),
            TokKind::Not => String::from_str("`Not`"),
            TokKind::Plus => String::from_str("`Plus`"),
            TokKind::Minus => String::from_str("`Minus`"),
            TokKind::Star => String::from_str("`Star`"),
            TokKind::Slash => String::from_str("`Slash`"),
            TokKind::Percent => String::from_str("`Percent`"),
            TokKind::EqEq => String::from_str("`EqEq`"),
            TokKind::NotEq => String::from_str("`NotEq`"),
            TokKind::Le => String::from_str("`Le`"),
            TokKind::Ge => String::from_str("`Ge`"),
            TokKind::Lt => String::from_str("`Lt`"),
            TokKind::Gt => String::from_str("`Gt`"),
            TokKind::Assign => String::from_str("`Assign`"),
            TokKind::Arrow => String::from_str("`Arrow`"),
            TokKind::Colon => String::from_str("`Colon`"),
            TokKind::Comma => String::from_str("`Comma`"),
            TokKind::LParen => String::from_str("`LParen`"),
            TokKind::RParen => String::from_str("`RParen`"),
            TokKind::LBracket => String::from_str("`LBracket`"),
            TokKind::RBracket => String::from_str("`RBracket`"),
            TokKind::Ellipsis => String::from_str("`Ellipsis`"),
            TokKind::Dot => String::from_str("`Dot`"),
        }
    }
}

impl TokV {
    /// A number for each variant.
    pub open spec fn tag(self) -> u8 {
        match self {
            TokV::Float(_) => 0,
            TokV::Int(_) => 1,
            TokV::Str(_) => 2,
            TokV::FStr(_) => 3,
            TokV::Ident(_) => 4,
            TokV::Fn => 5,
            TokV::Extern => 6,
            TokV::Struct => 7,
            TokV::Enum => 8,
            TokV::Match => 9,
            TokV::Let => 10,
            TokV::Return => 11,
            TokV::If => 12,
            TokV::Elif => 13,
            TokV::Else => 14,
            TokV::While => 15,
            TokV::For => 16,
            TokV::In => 17,
            TokV::Break => 18,
            TokV::Continue => 19,
            TokV::True => 20,
            TokV::False => 21,
            TokV::And => 22,
            TokV::Or => 23,
            TokV::Not => 24,
            TokV::Plus => 25,
            TokV::Minus => 26,
            TokV::Star => 27,
            TokV::Slash => 28,
            TokV::Percent => 29,
            TokV::EqEq => 30,
            TokV::NotEq => 31,
            TokV::Le => 32,
            TokV::Ge => 33,
            TokV::Lt => 34,
            TokV::Gt => 35,
            TokV::Assign => 36,
            TokV::Arrow => 37,
            TokV::Colon => 38,
            TokV::Comma => 39,
            TokV::LParen => 40,
            TokV::RParen => 41,
            TokV::LBracket => 42,
            TokV::RBracket => 43,
            TokV::Ellipsis => 44,
            TokV::Dot => 45,
            TokV::Newline => 46,
            TokV::Indent => 47,
            TokV::Dedent => 48,
            TokV::Eof => 49,
        }
    }

    /// Whether the token carries no value of its own.
    pub open spec fn plain(self) -> bool {
        self.tag() >= 5
    }

    /// The token as diagnostics name it.
    pub open spec fn shown(self) -> Seq<char> {
        match self {
            TokV::Ident(s) => "identifier `"@ + s + "`"@,
            TokV::Int(n) => "integer `"@ + dec_int(n as int) + "`"@,
            TokV::Float(s) => "float `"@ + s + "`"@,
            TokV::Str(_) => "string literal"@,
            TokV::FStr(_) => "string literal"@,
            TokV::Newline => "newline"@,
            TokV::Indent => "indent"@,
            TokV::Dedent => "dedent"@,
            TokV::Eof => "end of file"@,
            TokV::Fn => "`Fn`"@,
            TokV::Extern => "`Extern`"@,
            TokV::Struct => "`Struct`"@,
            TokV::Enum => "`Enum`"@,
            TokV::Match => "`Match`"@,
            TokV::Let => "`Let`"@,
            TokV::Return => "`Return`"@,
            TokV::If => "`If`"@,
            TokV::Elif => "`Elif`"@,
            TokV::Else => "`Else`"@,
            TokV::While => "`While`"@,
            TokV::For => "`For`"@,
            TokV::In => "`In`"@,
            TokV::Break => "`Break`"@,
            TokV::Continue => "`Continue`"@,
            TokV::True => "`True`"@,
            TokV::False => "`False`"@,
            TokV::And => "`And`"@,
            TokV::Or => "`Or`"@,
            TokV::Not => "`Not`"@,
            TokV::Plus => "`Plus`"@,
            TokV::Minus => "`Minus`"@,
            TokV::Star => "`Star`"@,
            TokV::Slash => "`Slash`"@,
            TokV::Percent => "`Percent`"@,
            TokV::EqEq => "`EqEq`"@,
            TokV::NotEq => "`NotEq`"@,
            TokV::Le => "`Le`"@,
            TokV::Ge => "`Ge`"@,
            TokV::Lt => "`Lt`"@,
            TokV::Gt => "`Gt`"@,
            TokV::Assign => "`Assign`"@,
            TokV::Arrow => "`Arrow`"@,
            TokV::Colon => "`Colon`"@,
            TokV::Comma => "`Comma`"@,
            TokV::LParen => "`LParen`"@,
            TokV::RParen => "`RParen`"@,
            TokV::LBracket => "`LBracket`"@,
            TokV::RBracket => "`RBracket`"@,
            TokV::Ellipsis => "`Ellipsis`"@,
            TokV::Dot => "`Dot`"@,
        }
    }
}

/// The number of a token without a value determines it.
proof fn lemma_plain_tag(a: TokV, b: TokV)
    requires
        b.plain(),
    ensures
        (a.tag() == b.tag()) == (a == b),
{
}

#[derive(Debug, Clone, PartialEq)]
pub struct Token {
    pub kind: TokKind,
    pub span: Span,
}

/// A token as a value of mathematics.
#[verifier::ext_equal]
pub struct TokenV {
    pub kind: TokV,
    pub span: Span,
}

impl Token {
    pub open spec fn view(&self) -> TokenV {
        TokenV { kind: self.kind@, span: self.span }
    }
}

pub open spec fn tokens_v(s: Seq<Token>) -> Seq<TokenV> {
    Seq::new(s.len(), |i: int| s[i]@)
}

#[derive(Debug, Clone)]
pub struct LexError {
    pub span: Span,
    pub message: String,
}

impl LexError {
    pub open spec fn view(&self) -> Fault {
        Fault { span: self.span, message: self.message@ }
    }

    /// The one-line form of the error.
    pub fn to_text(&self) -> (s: String)
        ensures
            s@ == "lex error (line "@ + dec(self.span.line as nat) + "): "@ + self.message@,
    {
        let n = dec_usize(self.span.line);
        crate::text::cat4("lex error (line ", n.as_str(), "): ", self.message.as_str())
    }

    /// The diagnostic that reports this error.
    pub fn into_diagnostic(self) -> (d: Diagnostic)
        ensures
            d.phase@ == "lex"@,
            d.span == self.span,
            d.message@ == self.message@,
    {
        Diagnostic { phase: "lex", span: self.span, message: self.message }
    }
}

// ----- string escapes -------------------------------------------------------------
/// What a backslash and the character after it stand for.
pub open spec fn escape(c: char) -> Seq<char> {
    if c == 'n' {
        seq!['\n']
    } else if c == 't' {
        seq!['\t']
    } else if c == 'r' {
        seq!['\r']
    } else if c == '0' {
        seq!['\0']
    } else if c == '\\' {
        seq!['\\']
    } else if c == '"' {
        seq!['"']
    } else {
        seq!['\\', c]
    }
}

/// The text from position `i` on with its escapes resolved.
pub open spec fn unescaped(s: Seq<char>, i: int) -> Seq<char>
    decreases s.len() - i,
{
    if i < 0 || i >= s.len() {
        Seq::empty()
    } else if s[i] == '\\' {
        if i + 1 < s.len() {
            escape(s[i + 1]) + unescaped(s, i + 2)
        } else {
            seq!['\\']
        }
    } else {
        seq![s[i]] + unescaped(s, i + 1)
    }
}

/// Resolving escapes never makes a text longer.
proof fn lemma_unescaped_len(s: Seq<char>, i: int)
    requires
        0 <= i <= s.len(),
    ensures
        unescaped(s, i).len() <= s.len() - i,
    decreases s.len() - i,
{
    if i < s.len() {
        if s[i] == '\\' {
            if i + 1 < s.len() {
                lemma_unescaped_len(s, i + 2);
            }
        } else {
            lemma_unescaped_len(s, i + 1);
        }
    }
}

/// Resolves the escapes of `chars[from..to]`.
fn unescape_between(chars: &Vec<char>, from: usize, to: usize) -> (out: String)
    requires
        from <= to <= chars@.len(),
    ensures
        out@ == unescaped(chars@.subrange(from as int, to as int), 0),
{
    let ghost s = chars@.subrange(from as int, to as int);
    let mut out = String::new();
    let mut i: usize = from;
    assert(out@ + unescaped(s, 0) =~= unescaped(s, 0));
    while i < to
        invariant
            from <= i <= to <= chars@.len(),
            s == chars@.subrange(from as int, to as int),
            out@ + unescaped(s, i - from) == unescaped(s, 0),
        decreases to - i,
    {
        let c = chars[i];
        let ghost before = out@;
        assert(s[i - from] == c);
        if c == '\\' {
            if to - i > 1 {
                let d = chars[i + 1];
                assert(s[i + 1 - from] == d);
                if d == 'n' {
                    out.push('\n');
                } else if d == 't' {
                    out.push('\t');
                } else if d == 'r' {
                    out.push('\r');
                } else if d == '0' {
                    out.push('\0');
                } else if d == '\\' {
                    out.push('\\');
                } else if d == '"' {
                    out.push('"');
                } else {
                    out.push('\\');
                    out.push(d);
                }
                assert(out@ =~= before + escape(d));
                assert(out@ + unescaped(s, i + 2 - from) =~= before + (escape(d) + unescaped(
                    s,
                    i + 2 - from,
                )));
                i = i + 2;
            } else {
                out.push('\\');
                assert(out@ + unescaped(s, i + 1 - from) =~= before + seq!['\\']);
                i = i + 1;
            }
        } else {
            out.push(c);
            assert(out@ + unescaped(s, i + 1 - from) =~= before + (seq![c] + unescaped(
                s,
                i + 1 - from,
            )));
            i = i + 1;
        }
    }
    assert(out@ + unescaped(s, i - from) =~= out@);
    out
}

/// Resolves the escapes of a quoted literal; `s` includes the surrounding
/// quotes, which are dropped.
pub fn unescape(s: &str) -> (out: String)
    requires
        s@.len() >= 2,
        width(s@[0]) == 1,
        width(s@.last()) == 1,
    ensures
        out@ == unescaped(s@.subrange(1, s@.len() - 1), 0),
{
    let chars = chars_of(s);
    unescape_between(&chars, 1, chars.len() - 1)
}

// ----- scanning within a line -----------------------------------------------------
pub open spec fn is_digit(c: char) -> bool {
    '0' <= c <= '9'
}

pub open spec fn is_word_start(c: char) -> bool {
    'A' <= c <= 'Z' || 'a' <= c <= 'z' || c == '_'
}

pub open spec fn is_word(c: char) -> bool {
    is_word_start(c) || is_digit(c)
}

fn digit_here(c: char) -> (b: bool)
    ensures
        b == is_digit(c),
{
    '0' <= c && c <= '9'
}

fn word_start_here(c: char) -> (b: bool)
    ensures
        b == is_word_start(c),
{
    ('A' <= c && c <= 'Z') || ('a' <= c && c <= 'z') || c == '_'
}

/// The end of the run of digits that starts at `i`.
pub open spec fn digits_end(s: Seq<char>, i: int) -> int
    decreases s.len() - i,
{
    if 0 <= i < s.len() && is_digit(s[i]) {
        digits_end(s, i + 1)
    } else {
        i
    }
}

/// The end of the run of word characters that starts at `i`.
pub open spec fn word_end(s: Seq<char>, i: int) -> int
    decreases s.len() - i,
{
    if 0 <= i < s.len() && is_word(s[i]) {
        word_end(s, i + 1)
    } else {
        i
    }
}

/// Where a string literal whose contents start at `i` ends, just past its
/// closing quote. A backslash keeps the character after it from closing it.
pub open spec fn string_end(s: Seq<char>, i: int) -> Option<int>
    decreases s.len() - i,
{
    if i < 0 || i >= s.len() {
        None
    } else if s[i] == '"' {
        Some(i + 1)
    } else if s[i] == '\\' {
        if i + 1 < s.len() {
            string_end(s, i + 2)
        } else {
            None
        }
    } else {
        string_end(s, i + 1)
    }
}

/// The first position from `i` on that is neither blank nor in a comment.
pub open spec fn skip_blank(s: Seq<char>, i: int) -> int
    decreases s.len() - i,
{
    if i < 0 || i >= s.len() || s[i] == '#' {
        s.len() as int
    } else if s[i] == ' ' || s[i] == '\t' {
        skip_blank(s, i + 1)
    } else {
        i
    }
}

/// The value of a run of digits.
pub open spec fn digits_value(s: Seq<char>) -> nat
    decreases s.len(),
{
    if s.len() == 0 {
        0
    } else {
        digits_value(s.drop_last()) * 10 + (s.last() as nat - '0' as nat) as nat
    }
}

/// The keyword spelled by a word, or else the identifier.
pub open spec fn word_token(s: Seq<char>) -> TokV {
    if s == "fn"@ {
        TokV::Fn
    } else if s == "extern"@ {
        TokV::Extern
    } else if s == "struct"@ {
        TokV::Struct
    } else if s == "enum"@ {
        TokV::Enum
    } else if s == "match"@ {
        TokV::Match
    } else if s == "let"@ {
        TokV::Let
    } else if s == "return"@ {
        TokV::Return
    } else if s == "if"@ {
        TokV::If
    } else if s == "elif"@ {
        TokV::Elif
    } else if s == "else"@ {
        TokV::Else
    } else if s == "while"@ {
        TokV::While
    } else if s == "for"@ {
        TokV::For
    } else if s == "in"@ {
        TokV::In
    } else if s == "break"@ {
        TokV::Break
    } else if s == "continue"@ {
        TokV::Continue
    } else if s == "true"@ {
        TokV::True
    } else if s == "false"@ {
        TokV::False
    } else if s == "and"@ {
        TokV::And
    } else if s == "or"@ {
        TokV::Or
    } else if s == "not"@ {
        TokV::Not
    } else {
        TokV::Ident(s)
    }
}

/// What the scanner finds at some position of a line.
pub enum Scan {
    /// Only blanks or a comment are left.
    End,
    /// A token and the positions it spans.
    Found(TokV, int, int),
    /// Text that starts no token, and the positions it spans.
    Bad(int, int),
}

/// The mark that starts at `i`: its token and length.
pub open spec fn mark_at(s: Seq<char>, i: int) -> Option<(TokV, int)> {
    let c = s[i];
    let d = if i + 1 < s.len() {
        s[i + 1]
    } else {
        ' '
    };
    let e = if i + 2 < s.len() {
        s[i + 2]
    } else {
        ' '
    };
    if c == '=' && d == '=' {
        Some((TokV::EqEq, 2))
    } else if c == '!' && d == '=' {
        Some((TokV::NotEq, 2))
    } else if c == '<' && d == '=' {
        Some((TokV::Le, 2))
    } else if c == '>' && d == '=' {
        Some((TokV::Ge, 2))
    } else if c == '-' && d == '>' {
        Some((TokV::Arrow, 2))
    } else if c == '.' && d == '.' && e == '.' {
        Some((TokV::Ellipsis, 3))
    } else if c == '+' {
        Some((TokV::Plus, 1))
    } else if c == '-' {
        Some((TokV::Minus, 1))
    } else if c == '*' {
        Some((TokV::Star, 1))
    } else if c == '/' {
        Some((TokV::Slash, 1))
    } else if c == '%' {
        Some((TokV::Percent, 1))
    } else if c == '<' {
        Some((TokV::Lt, 1))
    } else if c == '>' {
        Some((TokV::Gt, 1))
    } else if c == '=' {
        Some((TokV::Assign, 1))
    } else if c == ':' {
        Some((TokV::Colon, 1))
    } else if c == ',' {
        Some((TokV::Comma, 1))
    } else if c == '(' {
        Some((TokV::LParen, 1))
    } else if c == ')' {
        Some((TokV::RParen, 1))
    } else if c == '[' {
        Some((TokV::LBracket, 1))
    } else if c == ']' {
        Some((TokV::RBracket, 1))
    } else if c == '.' {
        Some((TokV::Dot, 1))
    } else {
        None
    }
}

/// The token that starts at `i`, where no blank does: the longest one, a
/// keyword before an identifier. An integer that exceeds an `i64`, a string
/// without an end and any other character are bad.
pub open spec fn token_at(s: Seq<char>, i: int) -> Scan {
    let c = s[i];
    if is_digit(c) {
        let e = digits_end(s, i);
        if e + 1 < s.len() && s[e] == '.' && is_digit(s[e + 1]) {
            let f = digits_end(s, e + 1);
            Scan::Found(TokV::Float(s.subrange(i, f)), i, f)
        } else if digits_value(s.subrange(i, e)) <= i64::MAX {
            Scan::Found(TokV::Int(digits_value(s.subrange(i, e)) as i64), i, e)
        } else {
            Scan::Bad(i, e)
        }
    } else if c == 'f' && i + 1 < s.len() && s[i + 1] == '"' && string_end(s, i + 2) is Some {
        let e = string_end(s, i + 2)->0;
        Scan::Found(TokV::FStr(unescaped(s.subrange(i + 2, e - 1), 0)), i, e)
    } else if is_word_start(c) {
        let e = word_end(s, i);
        Scan::Found(word_token(s.subrange(i, e)), i, e)
    } else if c == '"' {
        match string_end(s, i + 1) {
            Some(e) => Scan::Found(TokV::Str(unescaped(s.subrange(i + 1, e - 1), 0)), i, e),
            None => Scan::Bad(i, s.len() as int),
        }
    } else {
        match mark_at(s, i) {
            Some((k, n)) => Scan::Found(k, i, i + n),
            None => Scan::Bad(i, i + 1),
        }
    }
}

/// The next token of a line from position `i` on.
pub open spec fn next_token(s: Seq<char>, i: int) -> Scan {
    let p = skip_blank(s, i);
    if 0 <= p < s.len() {
        token_at(s, p)
    } else {
        Scan::End
    }
}

proof fn lemma_digits_end(s: Seq<char>, i: int)
    requires
        0 <= i <= s.len(),
    ensures
        i <= digits_end(s, i) <= s.len(),
    decreases s.len() - i,
{
    if i < s.len() && is_digit(s[i]) {
        lemma_digits_end(s, i + 1);
    }
}

proof fn lemma_word_end(s: Seq<char>, i: int)
    requires
        0 <= i <= s.len(),
    ensures
        i <= word_end(s, i) <= s.len(),
    decreases s.len() - i,
{
    if i < s.len() && is_word(s[i]) {
        lemma_word_end(s, i + 1);
    }
}

proof fn lemma_string_end(s: Seq<char>, i: int)
    requires
        0 <= i,
    ensures
        string_end(s, i) matches Some(e) ==> i < e <= s.len(),
    decreases s.len() - i,
{
    if i < s.len() && s[i] != '"' {
        if s[i] == '\\' {
            if i + 1 < s.len() {
                lemma_string_end(s, i + 2);
            }
        } else {
            lemma_string_end(s, i + 1);
        }
    }
}

proof fn lemma_skip_blank(s: Seq<char>, i: int)
    requires
        0 <= i <= s.len(),
    ensures
        i <= skip_blank(s, i) <= s.len(),
    decreases s.len() - i,
{
    if i < s.len() && (s[i] == ' ' || s[i] == '\t') {
        lemma_skip_blank(s, i + 1);
    }
}

/// A token lies inside its line, ends after it starts, and an interpolated
/// literal is longer than what it holds.
proof fn lemma_next_token(s: Seq<char>, i: int)
    requires
        0 <= i <= s.len(),
    ensures
        match next_token(s, i) {
            Scan::End => true,
            Scan::Found(k, a, b) => i <= a < b <= s.len()
                && (k matches TokV::FStr(t) ==> t.len() + 3
                <= s.len()),
            Scan::Bad(a, b) => i <= a < b <= s.len(),
        },
{
    lemma_skip_blank(s, i);
    let p = skip_blank(s, i);
    if p < s.len() {
        lemma_digits_end(s, p);
        lemma_digits_end(s, p + 1);
        let e = digits_end(s, p);
        if e + 1 < s.len() {
            lemma_digits_end(s, e + 1);
        }
        lemma_word_end(s, p);
        lemma_word_end(s, p + 1);
        lemma_string_end(s, p + 1);
        lemma_string_end(s, p + 2);
        if p + 1 < s.len() && s[p] == 'f' && string_end(s, p + 2) is Some {
            let q = string_end(s, p + 2)->0;
            lemma_unescaped_len(s.subrange(p + 2, q - 1), 0);
        }
    }
}

fn skip_blank_here(line: &Vec<char>, from: usize) -> (p: usize)
    requires
        from <= line@.len(),
    ensures
        p == skip_blank(line@, from as int),
        from <= p <= line@.len(),
{
    let mut i: usize = from;
    while i < line.len()
        invariant
            from <= i <= line@.len(),
            skip_blank(line@, from as int) == skip_blank(line@, i as int),
        decreases line@.len() - i,
    {
        if line[i] == '#' {
            return line.len();
        }
        if line[i] != ' ' && line[i] != '\t' {
            return i;
        }
        i = i + 1;
    }
    i
}

fn digits_end_here(line: &Vec<char>, from: usize) -> (e: usize)
    requires
        from <= line@.len(),
    ensures
        e == digits_end(line@, from as int),
        from <= e <= line@.len(),
{
    let mut i: usize = from;
    while i < line.len() && digit_here(line[i])
        invariant
            from <= i <= line@.len(),
            digits_end(line@, from as int) == digits_end(line@, i as int),
        decreases line@.len() - i,
    {
        i = i + 1;
    }
    i
}

fn word_end_here(line: &Vec<char>, from: usize) -> (e: usize)
    requires
        from <= line@.len(),
    ensures
        e == word_end(line@, from as int),
        from <= e <= line@.len(),
{
    let mut i: usize = from;
    while i < line.len() && (word_start_here(line[i]) || digit_here(line[i]))
        invariant
            from <= i <= line@.len(),
            word_end(line@, from as int) == word_end(line@, i as int),
        decreases line@.len() - i,
    {
        i = i + 1;
    }
    i
}

fn string_end_here(line: &Vec<char>, from: usize) -> (e: Option<usize>)
    requires
        from <= line@.len(),
    ensures
        match e {
            Some(e) => string_end(line@, from as int) == Some(e as int) && from < e <= line@.len(),
            None => string_end(line@, from as int) is None,
        },
{
    let mut i: usize = from;
    while i < line.len()
        invariant
            from <= i <= line@.len(),
            string_end(line@, from as int) == string_end(line@, i as int),
        decreases line@.len() - i,
    {
        if line[i] == '"' {
            return Some(i + 1);
        }
        if line[i] == '\\' {
            if line.len() - i < 2 {
                return None;
            }
            i = i + 2;
        } else {
            i = i + 1;
        }
    }
    None
}

proof fn lemma_digits_value_grows(s: Seq<char>, k: int)
    requires
        0 <= k <= s.len(),
    ensures
        digits_value(s.take(k)) <= digits_value(s),
    decreases s.len() - k,
{
    if k < s.len() {
        lemma_digits_value_grows(s, k + 1);
        assert(s.take(k + 1).drop_last() =~= s.take(k));
    } else {
        assert(s.take(k) =~= s);
    }
}

/// The value of the digits `line[from..to]` where it fits an `i64`.
fn int_value(line: &Vec<char>, from: usize, to: usize) -> (v: Option<i64>)
    requires
        from <= to <= line@.len(),
        forall|k: int| from <= k < to ==> is_digit(#[trigger] line@[k]),
    ensures
        v == (if digits_value(line@.subrange(from as int, to as int)) <= i64::MAX {
            Some(digits_value(line@.subrange(from as int, to as int)) as i64)
        } else {
            None
        }),
{
    let ghost s = line@.subrange(from as int, to as int);
    let mut acc: i128 = 0;
    let mut i: usize = from;
    while i < to
        invariant
            from <= i <= to <= line@.len(),
            s == line@.subrange(from as int, to as int),
            forall|k: int| from <= k < to ==> is_digit(#[trigger] line@[k]),
            0 <= acc <= i64::MAX,
            acc == digits_value(s.take(i - from)),
        decreases to - i,
    {
        let d: u32 = line[i] as u32 - '0' as u32;
        acc = acc * 10 + d as i128;
        proof {
            assert(s.take(i + 1 - from).drop_last() =~= s.take(i - from));
            assert(s.take(i + 1 - from).last() == line@[i as int]);
        }
        i = i + 1;
        if acc > i64::MAX as i128 {
            proof {
                lemma_digits_value_grows(s, i - from);
            }
            return None;
        }
    }
    assert(s.take(i - from) =~= s);
    Some(acc as i64)
}

proof fn lemma_digits_run(s: Seq<char>, i: int, k: int)
    requires
        0 <= i <= k < digits_end(s, i),
    ensures
        k < s.len(),
        is_digit(s[k]),
    decreases s.len() - i,
{
    if 0 <= i < s.len() && is_digit(s[i]) {
        if i < k {
            lemma_digits_run(s, i + 1, k);
        }
    }
}

/// What the scanner found: the executable form of [`Scan`].
pub enum Found {
    End,
    Token(TokKind, usize, usize),
    Bad(usize, usize),
}

impl Found {
    pub open spec fn view(&self) -> Scan {
        match *self {
            Found::End => Scan::End,
            Found::Token(k, a, b) => Scan::Found(k@, a as int, b as int),
            Found::Bad(a, b) => Scan::Bad(a as int, b as int),
        }
    }
}

fn word_token_of(s: String) -> (k: TokKind)
    ensures
        k@ == word_token(s@),
{
    if same(s.as_str(), "fn") {
        TokKind::Fn
    } else if same(s.as_str(), "extern") {
        TokKind::Extern
    } else if same(s.as_str(), "struct") {
        TokKind::Struct
    } else if same(s.as_str(), "enum") {
        TokKind::Enum
    } else if same(s.as_str(), "match") {
        TokKind::Match
    } else if same(s.as_str(), "let") {
        TokKind::Let
    } else if same(s.as_str(), "return") {
        TokKind::Return
    } else if same(s.as_str(), "if") {
        TokKind::If
    } else if same(s.as_str(), "elif") {
        TokKind::Elif
    } else if same(s.as_str(), "else") {
        TokKind::Else
    } else if same(s.as_str(), "while") {
        TokKind::While
    } else if same(s.as_str(), "for") {
        TokKind::For
    } else if same(s.as_str(), "in") {
        TokKind::In
    } else if same(s.as_str(), "break") {
        TokKind::Break
    } else if same(s.as_str(), "continue") {
        TokKind::Continue
    } else if same(s.as_str(), "true") {
        TokKind::True
    } else if same(s.as_str(), "false") {
        TokKind::False
    } else if same(s.as_str(), "and") {
        TokKind::And
    } else if same(s.as_str(), "or") {
        TokKind::Or
    } else if same(s.as_str(), "not") {
        TokKind::Not
    } else {
        TokKind::Ident(s)
    }
}

fn mark_here(line: &Vec<char>, i: usize) -> (m: Option<(TokKind, usize)>)
    requires
        i < line@.len(),
    ensures
        match m {
            Some((k, n)) => mark_at(line@, i as int) == Some((k@, n as int)) && 0 < n <= line@.len()
                - i,
            None => mark_at(line@, i as int) is None,
        },
{
    let c = line[i];
    let d = if line.len() - i > 1 {
        line[i + 1]
    } else {
        ' '
    };
    let e = if line.len() - i > 2 {
        line[i + 2]
    } else {
        ' '
    };
    if c == '=' && d == '=' {
        Some((TokKind::EqEq, 2))
    } else if c == '!' && d == '=' {
        Some((TokKind::NotEq, 2))
    } else if c == '<' && d == '=' {
        Some((TokKind::Le, 2))
    } else if c == '>' && d == '=' {
        Some((TokKind::Ge, 2))
    } else if c == '-' && d == '>' {
        Some((TokKind::Arrow, 2))
    } else if c == '.' && d == '.' && e == '.' {
        Some((TokKind::Ellipsis, 3))
    } else if c == '+' {
        Some((TokKind::Plus, 1))
    } else if c == '-' {
        Some((TokKind::Minus, 1))
    } else if c == '*' {
        Some((TokKind::Star, 1))
    } else if c == '/' {
        Some((TokKind::Slash, 1))
    } else if c == '%' {
        Some((TokKind::Percent, 1))
    } else if c == '<' {
        Some((TokKind::Lt, 1))
    } else if c == '>' {
        Some((TokKind::Gt, 1))
    } else if c == '=' {
        Some((TokKind::Assign, 1))
    } else if c == ':' {
        Some((TokKind::Colon, 1))
    } else if c == ',' {
        Some((TokKind::Comma, 1))
    } else if c == '(' {
        Some((TokKind::LParen, 1))
    } else if c == ')' {
        Some((TokKind::RParen, 1))
    } else if c == '[' {
        Some((TokKind::LBracket, 1))
    } else if c == ']' {
        Some((TokKind::RBracket, 1))
    } else if c == '.' {
        Some((TokKind::Dot, 1))
    } else {
        None
    }
}

/// Scans the next token of a line from position `from` on.
fn next_token_here(line: &Vec<char>, from: usize) -> (f: Found)
    requires
        from <= line@.len(),
    ensures
        f@ == next_token(line@, from as int),
{
    proof {
        lemma_next_token(line@, from as int);
    }
    let p = skip_blank_here(line, from);
    if p >= line.len() {
        return Found::End;
    }
    let c = line[p];
    if digit_here(c) {
        let e = digits_end_here(line, p);
        assert forall|k: int| p <= k < e implies is_digit(#[trigger] line@[k]) by {
            lemma_digits_run(line@, p as int, k);
        }
        if line.len() - e > 1 && line[e] == '.' && digit_here(line[e + 1]) {
            let f = digits_end_here(line, e + 1);
            Found::Token(TokKind::Float(text_of(line, p, f)), p, f)
        } else {
            match int_value(line, p, e) {
                Some(n) => Found::Token(TokKind::Int(n), p, e),
                None => Found::Bad(p, e),
            }
        }
    } else {
        if c == 'f' && line.len() - p > 1 && line[p + 1] == '"' {
            match string_end_here(line, p + 2) {
                Some(e) => {
                    return Found::Token(TokKind::FStr(unescape_between(line, p + 2, e - 1)), p, e);
                },
                None => {},
            }
        }
        if word_start_here(c) {
            let e = word_end_here(line, p);
            Found::Token(word_token_of(text_of(line, p, e)), p, e)
        } else if c == '"' {
            match string_end_here(line, p + 1) {
                Some(e) => Found::Token(TokKind::Str(unescape_between(line, p + 1, e - 1)), p, e),
                None => Found::Bad(p, line.len()),
            }
        } else {
            match mark_here(line, p) {
                Some((k, n)) => Found::Token(k, p, p + n),
                None => Found::Bad(p, p + 1),
            }
        }
    }
}

// ----- whole lines ------------------------------------------------------------------
/// The span of the positions `a..b` of line number `no`: a 1-based column and
/// a width, both in bytes.
pub open spec fn span_in(line: Seq<char>, no: usize, a: int, b: int) -> Span {
    Span {
        line: no,
        col: capped(byte_len(line.subrange(0, a)) + 1int),
        len: capped(byte_len(line.subrange(a, b)) as int),
    }
}

/// The tokens of a line from position `i` on.
pub open spec fn line_tokens(line: Seq<char>, no: usize, i: int) -> Result<Seq<TokenV>, Fault>
    decreases line.len() - i,
{
    match next_token(line, i) {
        Scan::End => Ok(Seq::empty()),
        Scan::Bad(a, b) => Err(
            Fault {
                span: span_in(line, no, a, b),
                message: "unexpected character `"@ + line.subrange(a, b) + "`"@,
            },
        ),
        Scan::Found(k, a, b) => if i < b <= line.len() {
            match line_tokens(line, no, b) {
                Ok(rest) => Ok(seq![TokenV { kind: k, span: span_in(line, no, a, b) }] + rest),
                Err(e) => Err(e),
            }
        } else {
            Ok(Seq::empty())
        },
    }
}

/// How many brackets are open after some tokens, where `depth` were before;
/// a closing bracket without an open one changes nothing.
pub open spec fn depth_after(depth: nat, toks: Seq<TokenV>) -> nat
    decreases toks.len(),
{
    if toks.len() == 0 {
        depth
    } else {
        let d = depth_after(depth, toks.drop_last());
        match toks.last().kind {
            TokV::LParen | TokV::LBracket => d + 1,
            TokV::RParen | TokV::RBracket => if d > 0 {
                (d - 1) as nat
            } else {
                0
            },
            _ => d,
        }
    }
}

/// The number of spaces that a line starts with, counted from `i`.
pub open spec fn spaces_end(line: Seq<char>, i: int) -> int
    decreases line.len() - i,
{
    if 0 <= i < line.len() && line[i] == ' ' {
        spaces_end(line, i + 1)
    } else {
        i
    }
}

/// Where the scanner stands between two lines.
#[verifier::ext_equal]
pub struct LexState {
    /// The tokens so far.
    pub toks: Seq<TokenV>,
    /// The columns of the open blocks, outermost (always 0) first.
    pub indents: Seq<usize>,
    /// The number of open brackets.
    pub depth: nat,
}

/// The structural token `k` on line `no`.
pub open spec fn mark_token(k: TokV, no: usize) -> TokenV {
    TokenV { kind: k, span: Span::of_line(no) }
}

/// The open blocks that remain at column `indent`.
pub open spec fn closed_to(indents: Seq<usize>, indent: usize) -> Seq<usize>
    decreases indents.len(),
{
    if indents.len() > 0 && indents.last() > indent {
        closed_to(indents.drop_last(), indent)
    } else {
        indents
    }
}

/// `n` dedents on line `no`.
pub open spec fn dedents(n: nat, no: usize) -> Seq<TokenV> {
    Seq::new(n, |i: int| mark_token(TokV::Dedent, no))
}

/// Whether a line, seen outside brackets, holds nothing but blanks or a
/// comment.
pub open spec fn blank_line(line: Seq<char>) -> bool {
    let n = spaces_end(line, 0);
    n >= line.len() || line[n] == '#'
}

/// What the indentation of a line outside brackets does: deeper opens one
/// block, shallower closes blocks and must land on an open one.
pub open spec fn indented(st: LexState, line: Seq<char>, no: usize) -> Result<LexState, Fault> {
    let indent = spaces_end(line, 0) as usize;
    if indent > st.indents.last() {
        Ok(
            LexState {
                toks: st.toks.push(mark_token(TokV::Indent, no)),
                indents: st.indents.push(indent),
                depth: st.depth,
            },
        )
    } else {
        let rest = closed_to(st.indents, indent);
        if rest.last() == indent {
            Ok(
                LexState {
                    toks: st.toks + dedents((st.indents.len() - rest.len()) as nat, no),
                    indents: rest,
                    depth: st.depth,
                },
            )
        } else {
            Err(
                Fault {
                    span: Span::of_line(no),
                    message: "unindent to column "@ + dec(indent as nat)
                        + " does not match any outer indentation level"@,
                },
            )
        }
    }
}

/// The tokens of a line appended, and a newline where no bracket is open and
/// the line had a token.
pub open spec fn scanned(st: LexState, line: Seq<char>, no: usize) -> Result<LexState, Fault> {
    match line_tokens(line, no, 0) {
        Ok(toks) => {
            let depth = depth_after(st.depth, toks);
            Ok(
                LexState {
                    toks: if depth == 0 && toks.len() > 0 {
                        (st.toks + toks).push(mark_token(TokV::Newline, no))
                    } else {
                        st.toks + toks
                    },
                    indents: st.indents,
                    depth,
                },
            )
        },
        Err(e) => Err(e),
    }
}

/// One line: inside brackets only its tokens count; outside, a tab in the
/// indentation is refused, blank lines are skipped, and the indentation comes
/// first.
pub open spec fn line_step(st: LexState, line: Seq<char>, no: usize) -> Result<LexState, Fault> {
    if st.depth > 0 {
        scanned(st, line, no)
    } else {
        let n = spaces_end(line, 0);
        if 0 <= n < line.len() && line[n] == '\t' {
            Err(
                Fault {
                    span: Span::of_line(no),
                    message: "tabs are not allowed in indentation; use spaces"@,
                },
            )
        } else if blank_line(line) {
            Ok(st)
        } else {
            match indented(st, line, no) {
                Ok(st) => scanned(st, line, no),
                Err(e) => Err(e),
            }
        }
    }
}

/// The state after the first `n` lines.
pub open spec fn after_lines(all: Seq<Seq<char>>, n: nat) -> Result<LexState, Fault>
    decreases n,
{
    if n == 0 {
        Ok(LexState { toks: Seq::empty(), indents: seq![0], depth: 0 })
    } else {
        match after_lines(all, (n - 1) as nat) {
            Ok(st) => line_step(st, all[n - 1], n as usize),
            Err(e) => Err(e),
        }
    }
}

/// The number of the last line.
pub open spec fn last_line(all: Seq<Seq<char>>) -> usize {
    if all.len() > 1 {
        all.len() as usize
    } else {
        1
    }
}

/// The token stream of a source text, or the first fault in it.
pub open spec fn lexed(source: Seq<char>) -> Result<Seq<TokenV>, Fault> {
    let all = lines(source);
    match after_lines(all, all.len()) {
        Ok(st) => Ok(
            (st.toks + dedents((st.indents.len() - 1) as nat, last_line(all))).push(
                mark_token(TokV::Eof, last_line(all)),
            ),
        ),
        Err(e) => Err(e),
    }
}

/// Open blocks: a first one at column 0, each further one deeper.
pub open spec fn stacked(indents: Seq<usize>) -> bool {
    &&& indents.len() > 0
    &&& indents[0] == 0
    &&& forall|i: int, j: int| 0 <= i < j < indents.len() ==> indents[i] < indents[j]
}

proof fn lemma_closed_to(indents: Seq<usize>, indent: usize)
    requires
        stacked(indents),
    ensures
        stacked(closed_to(indents, indent)),
        closed_to(indents, indent).len() <= indents.len(),
        closed_to(indents, indent).last() <= indent,
        closed_to(indents, indent).is_prefix_of(indents),
    decreases indents.len(),
{
    if indents.last() > indent {
        lemma_closed_to(indents.drop_last(), indent);
    }
}

fn spaces_end_here(line: &Vec<char>) -> (n: usize)
    ensures
        n == spaces_end(line@, 0),
        n <= line@.len(),
{
    let mut i: usize = 0;
    while i < line.len() && line[i] == ' '
        invariant
            i <= line@.len(),
            spaces_end(line@, 0) == spaces_end(line@, i as int),
        decreases line@.len() - i,
    {
        i = i + 1;
    }
    i
}

fn span_of(line: &Vec<char>, no: usize, a: usize, b: usize) -> (s: Span)
    requires
        a <= b <= line@.len(),
    ensures
        s == span_in(line@, no, a as int, b as int),
{
    let before = bytes_between(line, 0, a);
    let wide = bytes_between(line, a, b);
    Span { line: no, col: before.saturating_add(1), len: wide }
}

proof fn lemma_tokens_push(s: Seq<Token>, t: Token)
    ensures
        tokens_v(s.push(t)) == tokens_v(s).push(t@),
{
    assert(tokens_v(s.push(t)) =~= tokens_v(s).push(t@));
}

proof fn lemma_depth_concat(d: nat, a: Seq<TokenV>, b: Seq<TokenV>)
    ensures
        depth_after(d, a + b) == depth_after(depth_after(d, a), b),
    decreases b.len(),
{
    if b.len() == 0 {
        assert(a + b =~= a);
    } else {
        lemma_depth_concat(d, a, b.drop_last());
        assert((a + b).drop_last() =~= a + b.drop_last());
        assert((a + b).last() == b.last());
    }
}

/// Scans a line into `tokens` and keeps the count of open brackets.
fn scan_line(line: &Vec<char>, no: usize, tokens: &mut Vec<Token>, open: usize) -> (r: Result<
    usize,
    LexError,
>)
    requires
        open <= old(tokens)@.len(),
    ensures
        match line_tokens(line@, no, 0) {
            Ok(toks) => {
                &&& r is Ok
                &&& r->Ok_0 == depth_after(open as nat, toks)
                &&& r->Ok_0 <= final(tokens)@.len()
                &&& tokens_v(final(tokens)@) == tokens_v(old(tokens)@) + toks
            },
            Err(e) => r is Err && r->Err_0@ == e,
        },
{
    let ghost start = tokens_v(tokens@);
    let ghost all = line_tokens(line@, no, 0);
    let ghost mut done: Seq<TokenV> = Seq::empty();
    let mut depth: usize = open;
    let mut i: usize = 0;
    proof {
        assert(start + done =~= start);
        if all is Ok {
            assert(done + all->Ok_0 =~= all->Ok_0);
        }
    }
    loop
        invariant
            i <= line@.len(),
            all == line_tokens(line@, no, 0),
            tokens_v(tokens@) == start + done,
            start == tokens_v(old(tokens)@),
            depth == depth_after(open as nat, done),
            depth <= tokens@.len(),
            match line_tokens(line@, no, i as int) {
                Ok(rest) => all == Ok::<Seq<TokenV>, Fault>(done + rest),
                Err(e) => all == Err::<Seq<TokenV>, Fault>(e),
            },
        decreases line@.len() - i,
    {
        proof {
            lemma_next_token(line@, i as int);
        }
        match next_token_here(line, i) {
            Found::End => {
                assert(done + Seq::<TokenV>::empty() =~= done);
                return Ok(depth);
            },
            Found::Bad(a, b) => {
                let shown = text_of(line, a, b);
                return Err(
                    LexError {
                        span: span_of(line, no, a, b),
                        message: cat3("unexpected character `", shown.as_str(), "`"),
                    },
                );
            },
            Found::Token(kind, a, b) => {
                let token = Token { kind, span: span_of(line, no, a, b) };
                let opens = token.kind.is(&TokKind::LParen) || token.kind.is(&TokKind::LBracket);
                let closes = token.kind.is(&TokKind::RParen) || token.kind.is(&TokKind::RBracket);
                proof {
                    lemma_tokens_push(tokens@, token);
                    let next = done.push(token@);
                    assert(next.drop_last() =~= done);
                    assert(start + next =~= (start + done).push(token@));
                    if let Ok(rest) = line_tokens(line@, no, b as int) {
                        assert(done + (seq![token@] + rest) =~= next + rest);
                    }
                    done = next;
                }
                tokens.push(token);
                assert(tokens@.len() == tokens.len());
                if opens {
                    depth = depth + 1;
                } else if closes {
                    depth = depth.saturating_sub(1);
                }
                i = b;
            },
        }
    }
}

fn push_mark(tokens: &mut Vec<Token>, kind: TokKind, no: usize)
    ensures
        tokens_v(final(tokens)@) == tokens_v(old(tokens)@).push(mark_token(kind@, no)),
        final(tokens)@.len() == old(tokens)@.len() + 1,
{
    let token = Token { kind, span: Span::line_only(no) };
    proof {
        lemma_tokens_push(tokens@, token);
    }
    tokens.push(token);
}

/// Applies the indentation of a line outside brackets.
fn indent_line(indent: usize, no: usize, tokens: &mut Vec<Token>, indents: &mut Vec<usize>) -> (r:
    Result<(), LexError>)
    requires
        stacked(old(indents)@),
    ensures
        stacked(final(indents)@),
        final(tokens)@.len() >= old(tokens)@.len(),
        forall|line: Seq<char>, depth: nat|
            spaces_end(line, 0) == indent ==> match #[trigger] indented(
                LexState { toks: tokens_v(old(tokens)@), indents: old(indents)@, depth },
                line,
                no,
            ) {
                Ok(st) => {
                    &&& r is Ok
                    &&& st == LexState {
                        toks: tokens_v(final(tokens)@),
                        indents: final(indents)@,
                        depth,
                    }
                },
                Err(e) => r is Err && r->Err_0@ == e,
            },
{
    let ghost before = indents@;
    let ghost toks0 = tokens_v(tokens@);
    let current: usize = indents[indents.len() - 1];
    if indent > current {
        indents.push(indent);
        push_mark(tokens, TokKind::Indent, no);
        return Ok(());
    }
    proof {
        lemma_closed_to(before, indent);
        assert(toks0 + dedents(0, no) =~= toks0);
    }
    while indents[indents.len() - 1] > indent
        invariant
            stacked(indents@),
            stacked(before),
            indents@.len() <= before.len(),
            closed_to(before, indent) == closed_to(indents@, indent),
            tokens_v(tokens@) == toks0 + dedents((before.len() - indents@.len()) as nat, no),
            tokens@.len() >= old(tokens)@.len(),
        decreases indents@.len(),
    {
        proof {
            assert(indents@.last() > indent);
            assert(indents@[0] == 0);
        }
        indents.pop();
        push_mark(tokens, TokKind::Dedent, no);
        proof {
            let n = (before.len() - indents@.len()) as nat;
            assert(dedents(n, no) =~= dedents((n - 1) as nat, no).push(
                mark_token(TokV::Dedent, no),
            ));
            assert(toks0 + dedents(n, no) =~= (toks0 + dedents((n - 1) as nat, no)).push(
                mark_token(TokV::Dedent, no),
            ));
        }
    }
    if indents[indents.len() - 1] != indent {
        return Err(
            LexError {
                span: Span::line_only(no),
                message: cat3(
                    "unindent to column ",
                    dec_usize(indent).as_str(),
                    " does not match any outer indentation level",
                ),
            },
        );
    }
    Ok(())
}

/// The result of lexing as a value of mathematics.
pub open spec fn lex_result(r: Result<Vec<Token>, LexError>) -> Result<Seq<TokenV>, Fault> {
    match r {
        Ok(t) => Ok(tokens_v(t@)),
        Err(e) => Err(e@),
    }
}

proof fn lemma_lines_fault(all: Seq<Seq<char>>, k: nat, n: nat)
    requires
        k <= n,
        after_lines(all, k) is Err,
    ensures
        after_lines(all, n) == after_lines(all, k),
    decreases n,
{
    if k < n {
        lemma_lines_fault(all, k, (n - 1) as nat);
    }
}

/// Tokenize a whole source file, producing a flat token stream that includes
/// `Newline`, `Indent`, `Dedent` and a final `Eof`.
pub fn lex(source: &str) -> (r: Result<Vec<Token>, LexError>)
    ensures
        lex_result(r) == lexed(source@),
{
    let all = split_lines(&chars_of(source));
    let ghost views = nested(all@);
    let mut tokens: Vec<Token> = Vec::new();
    // The indentation stack. Always starts at column 0.
    let mut indents: Vec<usize> = Vec::new();
    indents.push(0);
    // Depth of open ( or [ — newlines inside are joined implicitly.
    let mut depth: usize = 0;
    let mut n: usize = 0;
    proof {
        assert(tokens_v(tokens@) =~= Seq::<TokenV>::empty());
        assert(indents@ =~= seq![0usize]);
    }
    while n < all.len()
        invariant
            n <= all@.len(),
            views == nested(all@),
            views == lines(source@),
            stacked(indents@),
            depth <= tokens@.len(),
            after_lines(views, n as nat) == Ok::<LexState, Fault>(
                LexState { toks: tokens_v(tokens@), indents: indents@, depth: depth as nat },
            ),
        decreases all@.len() - n,
    {
        let line = &all[n];
        let ghost st0 = LexState {
            toks: tokens_v(tokens@),
            indents: indents@,
            depth: depth as nat,
        };
        let line_no: usize = n + 1;
        assert(views[n as int] == line@);
        assert(after_lines(views, line_no as nat) == line_step(st0, line@, line_no));
        n = n + 1;
        if depth == 0 {
            let indent = spaces_end_here(line);
            if indent < line.len() && line[indent] == '\t' {
                proof {
                    lemma_lines_fault(views, line_no as nat, views.len());
                }
                return Err(
                    LexError {
                        span: Span::line_only(line_no),
                        message: String::from_str(
                            "tabs are not allowed in indentation; use spaces",
                        ),
                    },
                );
            }
            if indent >= line.len() || line[indent] == '#' {
                continue ;
            }
            match indent_line(indent, line_no, &mut tokens, &mut indents) {
                Ok(_) => {},
                Err(e) => {
                    proof {
                        lemma_lines_fault(views, line_no as nat, views.len());
                    }
                    return Err(e);
                },
            }
        }
        let ghost st1 = LexState {
            toks: tokens_v(tokens@),
            indents: indents@,
            depth: depth as nat,
        };
        assert(after_lines(views, line_no as nat) == scanned(st1, line@, line_no));
        let count = tokens.len();
        match scan_line(line, line_no, &mut tokens, depth) {
            Ok(d) => {
                depth = d;
                proof {
                    let found = line_tokens(line@, line_no, 0)->Ok_0;
                    assert(tokens_v(tokens@).len() == count + found.len());
                }
                if depth == 0 && tokens.len() > count {
                    push_mark(&mut tokens, TokKind::Newline, line_no);
                }
            },
            Err(e) => {
                proof {
                    lemma_lines_fault(views, line_no as nat, views.len());
                }
                return Err(e);
            },
        }
    }
    let last: usize = if all.len() > 1 {
        all.len()
    } else {
        1
    };
    let ghost toks0 = tokens_v(tokens@);
    let ghost k0 = indents@.len();
    assert(toks0 + dedents(0, last) =~= toks0);
    while indents.len() > 1
        invariant
            1 <= indents@.len() <= k0,
            tokens_v(tokens@) == toks0 + dedents((k0 - indents@.len()) as nat, last),
        decreases indents@.len(),
    {
        indents.pop();
        push_mark(&mut tokens, TokKind::Dedent, last);
        proof {
            let n = (k0 - indents@.len()) as nat;
            assert(toks0 + dedents(n, last) =~= (toks0 + dedents((n - 1) as nat, last)).push(
                mark_token(TokV::Dedent, last),
            ));
        }
    }
    push_mark(&mut tokens, TokKind::Eof, last);
    Ok(tokens)
}

// ----- laws of the token stream -------------------------------------------------------
/// How many blocks some tokens leave open: indents minus dedents.
pub open spec fn level(toks: Seq<TokenV>) -> int
    decreases toks.len(),
{
    if toks.len() == 0 {
        0
    } else {
        level(toks.drop_last()) + (if toks.last().kind == TokV::Indent {
            1int
        } else if toks.last().kind == TokV::Dedent {
            -1
        } else {
            0
        })
    }
}

/// Tokens that only the scanner of a line produces.
pub open spec fn scanner_token(k: TokV) -> bool {
    !(k is Newline || k is Indent || k is Dedent || k is Eof)
}

/// No prefix closes more blocks than it opened.
pub open spec fn never_negative(toks: Seq<TokenV>) -> bool {
    forall|k: int| 0 <= k <= toks.len() ==> level(#[trigger] toks.take(k)) >= 0
}

/// What a token of a text of `n` characters can be, end of file aside.
pub open spec fn ordinary(t: TokenV, n: nat) -> bool {
    t.kind !is Eof && (t.kind matches TokV::FStr(s) ==> s.len() + 3 <= n)
}

proof fn lemma_level_push(toks: Seq<TokenV>, t: TokenV)
    ensures
        level(toks.push(t)) == level(toks) + (if t.kind == TokV::Indent {
            1int
        } else if t.kind == TokV::Dedent {
            -1
        } else {
            0
        }),
        never_negative(toks) && level(toks.push(t)) >= 0 ==> never_negative(toks.push(t)),
{
    assert(toks.push(t).drop_last() =~= toks);
    if never_negative(toks) && level(toks.push(t)) >= 0 {
        assert forall|k: int| 0 <= k <= toks.push(t).len() implies level(
            #[trigger] toks.push(t).take(k),
        ) >= 0 by {
            if k <= toks.len() {
                assert(toks.push(t).take(k) =~= toks.take(k));
            } else {
                assert(toks.push(t).take(k) =~= toks.push(t));
            }
        }
    }
}

/// Appending tokens of a line changes no level.
proof fn lemma_level_line(toks: Seq<TokenV>, more: Seq<TokenV>)
    requires
        never_negative(toks),
        forall|i: int| 0 <= i < more.len() ==> scanner_token((#[trigger] more[i]).kind),
    ensures
        level(toks + more) == level(toks),
        never_negative(toks + more),
    decreases more.len(),
{
    if more.len() == 0 {
        assert(toks + more =~= toks);
    } else {
        let less = more.drop_last();
        lemma_level_line(toks, less);
        assert(scanner_token(more.last().kind));
        assert(toks + more =~= (toks + less).push(more.last()));
        assert(toks.take(toks.len() as int) =~= toks);
        assert((toks + less).take((toks + less).len() as int) =~= toks + less);
        lemma_level_push(toks + less, more.last());
    }
}

proof fn lemma_level_dedents(toks: Seq<TokenV>, n: nat, no: usize)
    requires
        never_negative(toks),
        level(toks) >= n,
    ensures
        level(toks + dedents(n, no)) == level(toks) - n,
        never_negative(toks + dedents(n, no)),
    decreases n,
{
    if n == 0 {
        assert(toks + dedents(n, no) =~= toks);
    } else {
        lemma_level_dedents(toks, (n - 1) as nat, no);
        assert(toks + dedents(n, no) =~= (toks + dedents((n - 1) as nat, no)).push(
            mark_token(TokV::Dedent, no),
        ));
        lemma_level_push(toks + dedents((n - 1) as nat, no), mark_token(TokV::Dedent, no));
    }
}

proof fn lemma_line_tokens(line: Seq<char>, no: usize, i: int)
    requires
        0 <= i <= line.len(),
    ensures
        line_tokens(line, no, i) matches Ok(toks) ==> forall|k: int|
            0 <= k < toks.len() ==> scanner_token((#[trigger] toks[k]).kind) && ordinary(
                toks[k],
                line.len(),
            ),
    decreases line.len() - i,
{
    lemma_next_token(line, i);
    if let Scan::Found(k, a, b) = next_token(line, i) {
        lemma_line_tokens(line, no, b);
    }
}

proof fn lemma_line_lengths(s: Seq<char>, i: int)
    requires
        0 <= i <= s.len(),
    ensures
        forall|k: int|
            0 <= k < crate::text::lines_from(s, i).len() ==> (#[trigger] crate::text::lines_from(
                s,
                i,
            )[k]).len() <= s.len(),
    decreases s.len() - i,
{
    if i < s.len() {
        crate::text::lemma_line_end_bounds(s, i);
        let e = crate::text::line_end(s, i);
        if e < s.len() {
            lemma_line_lengths(s, e + 1);
            let rest = crate::text::lines_from(s, e + 1);
            assert forall|k: int| 0 <= k < crate::text::lines_from(s, i).len() implies (
            #[trigger] crate::text::lines_from(s, i)[k]).len() <= s.len() by {
                if k > 0 {
                    assert(crate::text::lines_from(s, i)[k] == rest[k - 1]);
                }
            }
        }
    }
}

/// What holds between two lines of a text of `n` characters.
pub open spec fn lex_inv(st: LexState, n: nat) -> bool {
    &&& stacked(st.indents)
    &&& level(st.toks) == st.indents.len() - 1
    &&& never_negative(st.toks)
    &&& forall|k: int| 0 <= k < st.toks.len() ==> ordinary(#[trigger] st.toks[k], n)
}

proof fn lemma_line_step(st: LexState, line: Seq<char>, no: usize, n: nat)
    requires
        lex_inv(st, n),
        line.len() <= n,
    ensures
        line_step(st, line, no) matches Ok(st2) ==> lex_inv(st2, n),
{
    if line_step(st, line, no) is Ok && !(st.depth == 0 && blank_line(line)) {
        let st1 = if st.depth > 0 {
            st
        } else {
            indented(st, line, no)->Ok_0
        };
        if st.depth == 0 {
            let indent = spaces_end(line, 0) as usize;
            if indent > st.indents.last() {
                lemma_level_push(st.toks, mark_token(TokV::Indent, no));
            } else {
                lemma_closed_to(st.indents, indent);
                let rest = closed_to(st.indents, indent);
                lemma_level_dedents(st.toks, (st.indents.len() - rest.len()) as nat, no);
            }
        }
        assert(lex_inv(st1, n));
        lemma_line_tokens(line, no, 0);
        let more = line_tokens(line, no, 0)->Ok_0;
        lemma_level_line(st1.toks, more);
        lemma_level_push(st1.toks + more, mark_token(TokV::Newline, no));
    }
}

proof fn lemma_after_lines(source: Seq<char>, k: nat)
    requires
        k <= lines(source).len(),
    ensures
        after_lines(lines(source), k) matches Ok(st) ==> lex_inv(st, source.len()),
    decreases k,
{
    if k == 0 {
        let st = after_lines(lines(source), 0)->Ok_0;
        assert(forall|j: int| 0 <= j <= st.toks.len() ==> (#[trigger] st.toks.take(j)) =~= st.toks);
    } else {
        lemma_after_lines(source, (k - 1) as nat);
        lemma_line_lengths(source, 0);
        if let Ok(st) = after_lines(lines(source), (k - 1) as nat) {
            lemma_line_step(st, lines(source)[k - 1], k as usize, source.len());
        }
    }
}

/// A token stream ends in the end of the file, which stands nowhere else, and
/// an interpolated literal in it is shorter than the text it was read from.
pub proof fn law_stream_ends_once(source: Seq<char>)
    ensures
        lexed(source) matches Ok(toks) ==> {
            &&& toks.len() > 0
            &&& toks.last().kind == TokV::Eof
            &&& forall|k: int| 0 <= k < toks.len() - 1
                ==> ordinary(#[trigger] toks[k], source.len())
        },
{
    lemma_after_lines(source, lines(source).len());
}

/// Every block that a token stream opens it also closes, and none before it
/// was opened.
pub proof fn law_blocks_balance(source: Seq<char>)
    ensures
        lexed(source) matches Ok(toks) ==> level(toks) == 0 && never_negative(toks),
{
    lemma_after_lines(source, lines(source).len());
    let all = lines(source);
    if let Ok(st) = after_lines(all, all.len()) {
        let n = (st.indents.len() - 1) as nat;
        lemma_level_dedents(st.toks, n, last_line(all));
        lemma_level_push(st.toks + dedents(n, last_line(all)), mark_token(
            TokV::Eof,
            last_line(all),
        ));
    }
}

/// Whether inside brackets nothing stands but what the lines hold.
pub open spec fn joined(toks: Seq<TokenV>) -> bool {
    forall|k: int|
        0 <= k < toks.len() && depth_after(0, #[trigger] toks.take(k)) > 0 ==> scanner_token(
            toks[k].kind,
        )
}

/// One more token, which inside brackets is one of the line.
proof fn lemma_joined_push(toks: Seq<TokenV>, t: TokenV)
    requires
        joined(toks),
        depth_after(0, toks) > 0 ==> scanner_token(t.kind),
    ensures
        joined(toks.push(t)),
        !(t.kind is LParen || t.kind is LBracket || t.kind is RParen || t.kind is RBracket)
            ==> depth_after(0, toks.push(t)) == depth_after(0, toks),
{
    let more = toks.push(t);
    assert(more.drop_last() =~= toks);
    assert forall|k: int|
        0 <= k < more.len() && depth_after(0, #[trigger] more.take(k)) > 0 implies scanner_token(
        more[k].kind,
    ) by {
        assert(more.take(k) =~= toks.take(k));
        assert(toks.take(toks.len() as int) =~= toks);
    }
}

/// The tokens of a line.
proof fn lemma_joined_line(toks: Seq<TokenV>, more: Seq<TokenV>)
    requires
        joined(toks),
        forall|i: int| 0 <= i < more.len() ==> scanner_token((#[trigger] more[i]).kind),
    ensures
        joined(toks + more),
    decreases more.len(),
{
    if more.len() == 0 {
        assert(toks + more =~= toks);
    } else {
        let less = more.drop_last();
        lemma_joined_line(toks, less);
        assert(scanner_token(more.last().kind));
        assert(toks + more =~= (toks + less).push(more.last()));
        lemma_joined_push(toks + less, more.last());
    }
}

/// Dedents outside brackets.
proof fn lemma_joined_dedents(toks: Seq<TokenV>, n: nat, no: usize)
    requires
        joined(toks),
        depth_after(0, toks) == 0,
    ensures
        joined(toks + dedents(n, no)),
        depth_after(0, toks + dedents(n, no)) == 0,
    decreases n,
{
    if n == 0 {
        assert(toks + dedents(n, no) =~= toks);
    } else {
        let less = toks + dedents((n - 1) as nat, no);
        lemma_joined_dedents(toks, (n - 1) as nat, no);
        assert(toks + dedents(n, no) =~= less.push(mark_token(TokV::Dedent, no)));
        lemma_joined_push(less, mark_token(TokV::Dedent, no));
    }
}

proof fn lemma_joined_lines(all: Seq<Seq<char>>, k: nat)
    ensures
        after_lines(all, k) matches Ok(st) ==> joined(st.toks) && depth_after(0, st.toks)
            == st.depth,
    decreases k,
{
    if k > 0 {
        lemma_joined_lines(all, (k - 1) as nat);
        let line = all[k - 1];
        let no = k as usize;
        if let Ok(st) = after_lines(all, (k - 1) as nat) {
            if line_step(st, line, no) is Ok && !(st.depth == 0 && blank_line(line)) {
                let st1 = if st.depth > 0 {
                    st
                } else {
                    indented(st, line, no)->Ok_0
                };
                if st.depth == 0 {
                    let rest = closed_to(st.indents, spaces_end(line, 0) as usize);
                    lemma_joined_push(st.toks, mark_token(TokV::Indent, no));
                    lemma_joined_dedents(st.toks, (st.indents.len() - rest.len()) as nat, no);
                }
                lemma_line_tokens(line, no, 0);
                let more = line_tokens(line, no, 0)->Ok_0;
                lemma_joined_line(st1.toks, more);
                lemma_depth_concat(0, st1.toks, more);
                if depth_after(st.depth, more) == 0 {
                    lemma_joined_push(st1.toks + more, mark_token(TokV::Newline, no));
                }
            }
        }
    }
}

/// Lines are joined inside brackets: while one is open, no newline, indent or
/// dedent comes, but for the dedents at the end of a text that leaves a
/// bracket open.
pub proof fn law_brackets_join_lines(source: Seq<char>)
    ensures
        lexed(source) matches Ok(toks) ==> forall|k: int|
            0 <= k < toks.len() && depth_after(0, #[trigger] toks.take(k)) > 0 ==> {
                ||| scanner_token(toks[k].kind)
                ||| forall|j: int|
                    k <= j < toks.len() ==> (#[trigger] toks[j]).kind is Dedent || toks[j].kind
                        is Eof
            },
{
    let all = lines(source);
    lemma_joined_lines(all, all.len());
    if let Ok(toks) = lexed(source) {
        let st = after_lines(all, all.len())->Ok_0;
        assert forall|k: int| 0 <= k < st.toks.len() implies #[trigger] toks.take(k)
            == st.toks.take(k) by {
            assert(toks.take(k) =~= st.toks.take(k));
        }
    }
}

// ----- names --------------------------------------------------------------------------------
/// Whether a text is a name: a letter or an underscore, then letters, digits
/// and underscores.
pub open spec fn is_name(s: Seq<char>) -> bool {
    &&& s.len() > 0
    &&& is_word_start(s[0])
    &&& forall|i: int| 0 <= i < s.len() ==> is_word(#[trigger] s[i])
}

/// Whether a token, if it is an identifier, is one by a name.
pub open spec fn well_named(t: TokenV) -> bool {
    t.kind matches TokV::Ident(name) ==> is_name(name)
}

proof fn lemma_word_chars(s: Seq<char>, i: int)
    requires
        0 <= i <= s.len(),
    ensures
        forall|k: int| i <= k < word_end(s, i) ==> is_word(#[trigger] s[k]),
    decreases s.len() - i,
{
    if i < s.len() && is_word(s[i]) {
        lemma_word_chars(s, i + 1);
    }
}

proof fn lemma_token_named(s: Seq<char>, i: int)
    requires
        0 <= i <= s.len(),
    ensures
        next_token(s, i) matches Scan::Found(TokV::Ident(name), a, b) ==> is_name(name),
{
    lemma_skip_blank(s, i);
    let p = skip_blank(s, i);
    if p < s.len() && is_word_start(s[p]) {
        lemma_word_end(s, p);
        lemma_word_end(s, p + 1);
        lemma_word_chars(s, p);
        let word = s.subrange(p, word_end(s, p));
        assert(word.len() > 0 && word[0] == s[p]);
        assert forall|k: int| 0 <= k < word.len() implies is_word(#[trigger] word[k]) by {
            assert(word[k] == s[p + k]);
        }
    }
}

proof fn lemma_line_named(line: Seq<char>, no: usize, i: int)
    requires
        0 <= i <= line.len(),
    ensures
        line_tokens(line, no, i) matches Ok(toks) ==> forall|k: int|
            0 <= k < toks.len() ==> well_named(#[trigger] toks[k]),
    decreases line.len() - i,
{
    lemma_next_token(line, i);
    lemma_token_named(line, i);
    if let Scan::Found(k, a, b) = next_token(line, i) {
        lemma_line_named(line, no, b);
    }
}

proof fn lemma_lines_named(all: Seq<Seq<char>>, n: nat)
    ensures
        after_lines(all, n) matches Ok(st) ==> forall|k: int|
            0 <= k < st.toks.len() ==> well_named(#[trigger] st.toks[k]),
    decreases n,
{
    if n > 0 {
        lemma_lines_named(all, (n - 1) as nat);
        lemma_line_named(all[n - 1], n as usize, 0);
    }
}

/// Every identifier of a token stream is a name.
pub proof fn law_identifiers_are_names(source: Seq<char>)
    ensures
        lexed(source) matches Ok(toks) ==> forall|k: int|
            0 <= k < toks.len() ==> well_named(#[trigger] toks[k]),
{
    lemma_lines_named(lines(source), lines(source).len());
}

} // verus!
