//! Tokens are read back from the words they are written with.
use vstd::prelude::*;
use crate::constants::law_naturals_are_numerals;
use crate::lexer::{
    digits_end, digits_value, is_digit, is_name, is_word, line_tokens, skip_blank, string_end,
    token_at, unescaped, word_end, word_token, Scan, TokV, TokenV,
};
use crate::text::dec;

verus! {

// ----- words -------------------------------------------------------------------------------------
/// The word of a keyword.
pub open spec fn keyword(k: TokV) -> Option<Seq<char>> {
    match k {
        TokV::Fn => Some("fn"@),
        TokV::Extern => Some("extern"@),
        TokV::Struct => Some("struct"@),
        TokV::Enum => Some("enum"@),
        TokV::Match => Some("match"@),
        TokV::Let => Some("let"@),
        TokV::Return => Some("return"@),
        TokV::If => Some("if"@),
        TokV::Elif => Some("elif"@),
        TokV::Else => Some("else"@),
        TokV::While => Some("while"@),
        TokV::For => Some("for"@),
        TokV::In => Some("in"@),
        TokV::Break => Some("break"@),
        TokV::Continue => Some("continue"@),
        TokV::True => Some("true"@),
        TokV::False => Some("false"@),
        TokV::And => Some("and"@),
        TokV::Or => Some("or"@),
        TokV::Not => Some("not"@),
        _ => None,
    }
}

/// The signs of an operator or of punctuation.
pub open spec fn signs(k: TokV) -> Option<Seq<char>> {
    match k {
        TokV::Plus => Some(seq!['+']),
        TokV::Minus => Some(seq!['-']),
        TokV::Star => Some(seq!['*']),
        TokV::Slash => Some(seq!['/']),
        TokV::Percent => Some(seq!['%']),
        TokV::EqEq => Some(seq!['=', '=']),
        TokV::NotEq => Some(seq!['!', '=']),
        TokV::Le => Some(seq!['<', '=']),
        TokV::Ge => Some(seq!['>', '=']),
        TokV::Lt => Some(seq!['<']),
        TokV::Gt => Some(seq!['>']),
        TokV::Assign => Some(seq!['=']),
        TokV::Arrow => Some(seq!['-', '>']),
        TokV::Colon => Some(seq![':']),
        TokV::Comma => Some(seq![',']),
        TokV::LParen => Some(seq!['(']),
        TokV::RParen => Some(seq![')']),
        TokV::LBracket => Some(seq!['[']),
        TokV::RBracket => Some(seq![']']),
        TokV::Ellipsis => Some(seq!['.', '.', '.']),
        TokV::Dot => Some(seq!['.']),
        _ => None,
    }
}

/// How a character is written between quotes.
pub open spec fn between_quotes(c: char) -> Seq<char> {
    if c == '\n' {
        seq!['\\', 'n']
    } else if c == '\t' {
        seq!['\\', 't']
    } else if c == '\r' {
        seq!['\\', 'r']
    } else if c == '\0' {
        seq!['\\', '0']
    } else if c == '\\' || c == '"' {
        seq!['\\', c]
    } else {
        seq![c]
    }
}

/// How a text is written between quotes, from a position on.
pub open spec fn quoted(s: Seq<char>, i: int) -> Seq<char>
    decreases s.len() - i,
{
    if i < 0 || i >= s.len() {
        Seq::empty()
    } else {
        between_quotes(s[i]) + quoted(s, i + 1)
    }
}

/// What a token is written with.
pub open spec fn word(k: TokV) -> Seq<char> {
    match k {
        TokV::Int(n) => dec(n as nat),
        TokV::Float(s) => s,
        TokV::Str(s) => seq!['"'] + quoted(s, 0) + seq!['"'],
        TokV::FStr(s) => seq!['f', '"'] + quoted(s, 0) + seq!['"'],
        TokV::Ident(s) => s,
        _ => if keyword(k) is Some {
            keyword(k)->0
        } else if signs(k) is Some {
            signs(k)->0
        } else {
            Seq::empty()
        },
    }
}

/// Whether a text is a decimal fraction with the point at a position.
pub open spec fn fraction(s: Seq<char>, d: int) -> bool {
    &&& 0 < d < s.len() - 1
    &&& s[d] == '.'
    &&& forall|i: int| 0 <= i < s.len() && i != d ==> '0' <= #[trigger] s[i] <= '9'
}

/// Whether a token can be written: no token that stands for the layout of lines, no
/// negative number, and names that are no keywords.
pub open spec fn worded(k: TokV) -> bool {
    match k {
        TokV::Int(n) => n >= 0,
        TokV::Float(s) => exists|d: int| fraction(s, d),
        TokV::Ident(s) => is_name(s) && forall|other: TokV| #[trigger] keyword(other) != Some(s),
        TokV::Newline | TokV::Indent | TokV::Dedent | TokV::Eof => false,
        _ => true,
    }
}

/// Tokens in a row, with a space behind each.
pub open spec fn in_a_row(ks: Seq<TokV>, i: int) -> Seq<char>
    decreases ks.len() - i,
{
    if i < 0 || i >= ks.len() {
        Seq::empty()
    } else {
        word(ks[i]) + seq![' '] + in_a_row(ks, i + 1)
    }
}

/// Whether a text stands at a position of a line.
pub open spec fn sits(line: Seq<char>, p: int, t: Seq<char>) -> bool {
    &&& 0 <= p
    &&& p + t.len() <= line.len()
    &&& forall|i: int| 0 <= i < t.len() ==> (#[trigger] t[i]) == line[p + i]
}

// ----- reading them ------------------------------------------------------------------------------
proof fn lemma_parts(line: Seq<char>, p: int, a: Seq<char>, b: Seq<char>)
    requires
        sits(line, p, a + b),
    ensures
        sits(line, p, a),
        sits(line, p + a.len(), b),
{
    let t = a + b;
    assert forall|i: int| 0 <= i < a.len() implies (#[trigger] a[i]) == line[p + i] by {
        assert(t[i] == a[i]);
    }
    assert forall|i: int| 0 <= i < b.len() implies (#[trigger] b[i]) == line[p + a.len() + i] by {
        assert(t[a.len() + i] == b[i]);
    }
}

proof fn lemma_part(line: Seq<char>, p: int, t: Seq<char>)
    requires
        sits(line, p, t),
    ensures
        line.subrange(p, p + t.len()) == t,
{
    assert(line.subrange(p, p + t.len()) =~= t);
}

proof fn lemma_word_run(line: Seq<char>, i: int, e: int)
    requires
        0 <= i <= e < line.len(),
        forall|j: int| i <= j < e ==> is_word(#[trigger] line[j]),
        !is_word(line[e]),
    ensures
        word_end(line, i) == e,
    decreases e - i,
{
    if i < e {
        assert(is_word(line[i]));
        lemma_word_run(line, i + 1, e);
    }
}

proof fn lemma_digit_run(line: Seq<char>, i: int, e: int)
    requires
        0 <= i <= e < line.len(),
        forall|j: int| i <= j < e ==> is_digit(#[trigger] line[j]),
        !is_digit(line[e]),
    ensures
        digits_end(line, i) == e,
    decreases e - i,
{
    if i < e {
        assert(is_digit(line[i]));
        lemma_digit_run(line, i + 1, e);
    }
}

proof fn lemma_digits_value(n: nat)
    ensures
        digits_value(dec(n)) == n,
    decreases n,
{
    if n < 10 {
        reveal_with_fuel(digits_value, 2);
        assert(dec(n).drop_last() =~= Seq::<char>::empty());
    } else {
        lemma_digits_value(n / 10);
        assert(dec(n).drop_last() =~= dec(n / 10));
    }
}

/// Each keyword is told from the others.
proof fn lemma_keyword(k: TokV)
    requires
        keyword(k) is Some,
    ensures
        word_token(keyword(k)->0) == k,
        is_name(keyword(k)->0),
        keyword(k)->0.len() >= 2,
{
    reveal_strlit("fn");
    reveal_strlit("extern");
    reveal_strlit("struct");
    reveal_strlit("enum");
    reveal_strlit("match");
    reveal_strlit("let");
    reveal_strlit("return");
    reveal_strlit("if");
    reveal_strlit("elif");
    reveal_strlit("else");
    reveal_strlit("while");
    reveal_strlit("for");
    reveal_strlit("in");
    reveal_strlit("break");
    reveal_strlit("continue");
    reveal_strlit("true");
    reveal_strlit("false");
    reveal_strlit("and");
    reveal_strlit("or");
    reveal_strlit("not");
    assert("fn"@[0] == 'f' && "fn"@[1] == 'n');
    assert("extern"@[0] == 'e' && "extern"@[1] == 'x');
    assert("struct"@[0] == 's' && "struct"@[1] == 't');
    assert("enum"@[0] == 'e' && "enum"@[1] == 'n');
    assert("match"@[0] == 'm' && "match"@[1] == 'a');
    assert("let"@[0] == 'l' && "let"@[1] == 'e');
    assert("return"@[0] == 'r' && "return"@[1] == 'e');
    assert("if"@[0] == 'i' && "if"@[1] == 'f');
    assert("elif"@[0] == 'e' && "elif"@[1] == 'l' && "elif"@[2] == 'i');
    assert("else"@[0] == 'e' && "else"@[1] == 'l' && "else"@[2] == 's');
    assert("while"@[0] == 'w' && "while"@[1] == 'h');
    assert("for"@[0] == 'f' && "for"@[1] == 'o');
    assert("in"@[0] == 'i' && "in"@[1] == 'n');
    assert("break"@[0] == 'b' && "break"@[1] == 'r');
    assert("continue"@[0] == 'c' && "continue"@[1] == 'o');
    assert("true"@[0] == 't' && "true"@[1] == 'r');
    assert("false"@[0] == 'f' && "false"@[1] == 'a');
    assert("and"@[0] == 'a' && "and"@[1] == 'n');
    assert("or"@[0] == 'o' && "or"@[1] == 'r');
    assert("not"@[0] == 'n' && "not"@[1] == 'o');
}

/// A name that is no keyword is an identifier.
proof fn lemma_identifier(s: Seq<char>)
    requires
        forall|other: TokV| #[trigger] keyword(other) != Some(s),
    ensures
        word_token(s) == TokV::Ident(s),
{
    assert(keyword(TokV::Fn) == Some("fn"@));
    assert(keyword(TokV::Extern) == Some("extern"@));
    assert(keyword(TokV::Struct) == Some("struct"@));
    assert(keyword(TokV::Enum) == Some("enum"@));
    assert(keyword(TokV::Match) == Some("match"@));
    assert(keyword(TokV::Let) == Some("let"@));
    assert(keyword(TokV::Return) == Some("return"@));
    assert(keyword(TokV::If) == Some("if"@));
    assert(keyword(TokV::Elif) == Some("elif"@));
    assert(keyword(TokV::Else) == Some("else"@));
    assert(keyword(TokV::While) == Some("while"@));
    assert(keyword(TokV::For) == Some("for"@));
    assert(keyword(TokV::In) == Some("in"@));
    assert(keyword(TokV::Break) == Some("break"@));
    assert(keyword(TokV::Continue) == Some("continue"@));
    assert(keyword(TokV::True) == Some("true"@));
    assert(keyword(TokV::False) == Some("false"@));
    assert(keyword(TokV::And) == Some("and"@));
    assert(keyword(TokV::Or) == Some("or"@));
    assert(keyword(TokV::Not) == Some("not"@));
}

/// A text between quotes ends at the closing one.
proof fn lemma_string_end(line: Seq<char>, p: int, s: Seq<char>, i: int)
    requires
        0 <= i <= s.len(),
        sits(line, p, quoted(s, i) + seq!['"']),
    ensures
        string_end(line, p) == Some(p + quoted(s, i).len() + 1),
    decreases s.len() - i,
{
    let t = quoted(s, i) + seq!['"'];
    assert(t[0] == line[p]);
    if i < s.len() {
        let q = between_quotes(s[i]);
        assert(t =~= q + (quoted(s, i + 1) + seq!['"']));
        lemma_parts(line, p, q, quoted(s, i + 1) + seq!['"']);
        lemma_string_end(line, p + q.len(), s, i + 1);
        assert(q[0] == line[p]);
    }
}

/// A text between quotes stands for itself.
proof fn lemma_unescaped(t: Seq<char>, p: int, s: Seq<char>, i: int)
    requires
        0 <= i <= s.len(),
        sits(t, p, quoted(s, i)),
        p + quoted(s, i).len() == t.len(),
    ensures
        unescaped(t, p) == s.skip(i),
    decreases s.len() - i,
{
    if i < s.len() {
        let q = between_quotes(s[i]);
        lemma_parts(t, p, q, quoted(s, i + 1));
        lemma_unescaped(t, p + q.len(), s, i + 1);
        assert(q[0] == t[p]);
        if q.len() == 2 {
            assert(q[1] == t[p + 1]);
        }
        assert(s.skip(i) =~= seq![s[i]] + s.skip(i + 1));
    } else {
        assert(s.skip(i) =~= Seq::<char>::empty());
    }
}

proof fn lemma_quotes(line: Seq<char>, p: int, s: Seq<char>)
    requires
        sits(line, p, quoted(s, 0) + seq!['"']),
    ensures
        ({
            let e = p + quoted(s, 0).len() + 1;
            string_end(line, p) == Some(e) && unescaped(line.subrange(p, e - 1), 0) == s
        }),
{
    lemma_string_end(line, p, s, 0);
    lemma_parts(line, p, quoted(s, 0), seq!['"']);
    lemma_part(line, p, quoted(s, 0));
    lemma_unescaped(quoted(s, 0), 0, s, 0);
    assert(s.skip(0) =~= s);
}

/// A name is read as a word.
proof fn lemma_name(line: Seq<char>, p: int, s: Seq<char>)
    requires
        is_name(s),
        sits(line, p, s + seq![' ']),
    ensures
        token_at(line, p) == Scan::Found(word_token(s), p, p + s.len()),
        line[p] != ' ' && line[p] != '\t' && line[p] != '#',
{
    let e = p + s.len();
    lemma_parts(line, p, s, seq![' ']);
    assert(seq![' '][0] == line[e]);
    assert forall|j: int| p <= j < e implies is_word(#[trigger] line[j]) by {
        assert(s[j - p] == line[p + (j - p)]);
    }
    assert(s[0] == line[p]);
    if s.len() > 1 {
        assert(s[1] == line[p + 1]);
        assert(is_word(s[1]));
    }
    lemma_word_run(line, p, e);
    lemma_part(line, p, s);
}

/// A token that is written with a space behind it is read.
pub proof fn law_words_are_read(line: Seq<char>, p: int, k: TokV)
    requires
        worded(k),
        sits(line, p, word(k) + seq![' ']),
    ensures
        token_at(line, p) == Scan::Found(k, p, p + word(k).len()),
        line[p] != ' ' && line[p] != '\t' && line[p] != '#',
        word(k).len() > 0,
{
    let e = p + word(k).len();
    lemma_parts(line, p, word(k), seq![' ']);
    assert(seq![' '][0] == line[e]);
    match k {
        TokV::Int(n) => {
            let s = dec(n as nat);
            law_naturals_are_numerals(n as nat);
            lemma_digits_value(n as nat);
            assert forall|j: int| p <= j < e implies is_digit(#[trigger] line[j]) by {
                assert(s[j - p] == line[p + (j - p)]);
            }
            assert(s[0] == line[p]);
            lemma_digit_run(line, p, e);
            lemma_part(line, p, s);
        },
        TokV::Float(s) => {
            let d = choose|d: int| fraction(s, d);
            assert(fraction(s, d));
            assert forall|j: int| p <= j < e && j != p + d implies is_digit(
                #[trigger] line[j],
            ) by {
                assert(s[j - p] == line[p + (j - p)]);
            }
            assert(s[0] == line[p]);
            assert(s[d] == line[p + d]);
            assert(is_digit(line[p + d + 1]));
            lemma_digit_run(line, p, p + d);
            lemma_digit_run(line, p + d + 1, e);
            lemma_part(line, p, s);
        },
        TokV::Str(s) => {
            let (open, rest) = (seq!['"'], quoted(s, 0) + seq!['"']);
            assert(word(k) =~= open + rest);
            lemma_parts(line, p, open, rest);
            assert(open[0] == line[p]);
            lemma_quotes(line, p + 1, s);
        },
        TokV::FStr(s) => {
            let (open, rest) = (seq!['f', '"'], quoted(s, 0) + seq!['"']);
            assert(word(k) =~= open + rest);
            lemma_parts(line, p, open, rest);
            assert(open[0] == line[p]);
            assert(open[1] == line[p + 1]);
            lemma_quotes(line, p + 2, s);
        },
        TokV::Ident(s) => {
            lemma_identifier(s);
            lemma_name(line, p, s);
        },
        _ => {
            if keyword(k) is Some {
                lemma_keyword(k);
                lemma_name(line, p, word(k));
            } else {
                let s = word(k);
                assert(s[0] == line[p]);
                if s.len() >= 2 {
                    assert(s[1] == line[p + 1]);
                }
                if s.len() >= 3 {
                    assert(s[2] == line[p + 2]);
                }
            }
        },
    }
}

proof fn lemma_row(line: Seq<char>, no: usize, i: int, p: int, ks: Seq<TokV>, n: int)
    -> (found: Seq<
    TokenV,
>)
    requires
        forall|j: int| 0 <= j < ks.len() ==> worded(#[trigger] ks[j]),
        0 <= n <= ks.len(),
        sits(line, p, in_a_row(ks, n)),
        p + in_a_row(ks, n).len() == line.len(),
        i == p || (0 <= i && i + 1 == p && line[i] == ' '),
    ensures
        line_tokens(line, no, i) == Ok::<Seq<TokenV>, crate::diag::Fault>(found),
        found.len() == ks.len() - n,
        forall|j: int| 0 <= j < found.len() ==> (#[trigger] found[j]).kind == ks[n + j],
    decreases ks.len() - n,
{
    reveal_with_fuel(skip_blank, 3);
    if n == ks.len() {
        Seq::empty()
    } else {
        let one = word(ks[n]) + seq![' '];
        let rest = in_a_row(ks, n + 1);
        lemma_parts(line, p, one, rest);
        law_words_are_read(line, p, ks[n]);
        let e = p + word(ks[n]).len();
        lemma_parts(line, p, word(ks[n]), seq![' ']);
        assert(seq![' '][0] == line[e]);
        let more = lemma_row(line, no, e, e + 1, ks, n + 1);
        let first = TokenV { kind: ks[n], span: crate::lexer::span_in(line, no, p, e) };
        let found = seq![first] + more;
        assert forall|j: int| 0 <= j < found.len() implies (#[trigger] found[j]).kind == ks[n
            + j] by {
            if j > 0 {
                assert(more[j - 1].kind == ks[n + 1 + (j - 1)]);
            }
        }
        found
    }
}

/// Tokens that are written in a row are read back in order.
pub proof fn law_lines_are_read_back(ks: Seq<TokV>, no: usize)
    requires
        forall|j: int| 0 <= j < ks.len() ==> worded(#[trigger] ks[j]),
    ensures
        line_tokens(in_a_row(ks, 0), no, 0) matches Ok(found) && found.len() == ks.len()
            && forall|j: int| 0 <= j < ks.len() ==> (#[trigger] found[j]).kind == ks[j],
{
    let line = in_a_row(ks, 0);
    let found = lemma_row(line, no, 0, 0, ks, 0);
    assert forall|j: int| 0 <= j < ks.len() implies (#[trigger] found[j]).kind == ks[j] by {
        assert(found[j].kind == ks[0 + j]);
    }
}

} // verus!
