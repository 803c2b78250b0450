//! Text primitives shared by every phase: decimal numerals, concatenation,
//! repetition, line splitting and UTF-8 widths, all over `Seq<char>`.
use vstd::prelude::*;

verus! {

/// `String::push` appends the character at the end.
pub assume_specification[ String::push ](s: &mut String, c: char)
    ensures
        final(s)@ == old(s)@.push(c),
;

/// `==` on string slices compares them character by character.
pub assume_specification[ <str as PartialEq>::eq ](a: &str, b: &str) -> (r: bool)
    ensures
        r == (a@ == b@),
;

/// Whether two texts are the same.
pub fn same(a: &str, b: &str) -> (r: bool)
    ensures
        r == (a@ == b@),
{
    a.eq(b)
}

// ----- numerals -------------------------------------------------------------
/// The decimal digit `d` (0 to 9) as a character.
pub open spec fn digit(d: nat) -> char {
    (48 + d) as char
}

/// The decimal numeral of `n`, without leading zeros.
pub open spec fn dec(n: nat) -> Seq<char>
    decreases n,
{
    if n < 10 {
        seq![digit(n)]
    } else {
        dec(n / 10).push(digit(n % 10))
    }
}

proof fn lemma_numeral_length(n: nat)
    ensures
        dec(n).len() >= 1,
        n >= 10 ==> dec(n).len() >= 2,
    decreases n,
{
    if n >= 10 {
        lemma_numeral_length(n / 10);
    }
}

/// A numeral ends in a digit.
pub proof fn lemma_numeral_ends(n: nat)
    ensures
        dec(n).len() >= 1,
        '0' <= dec(n).last() <= '9',
{
    lemma_numeral_length(n);
}

/// Numerals tell numbers apart.
pub proof fn lemma_numerals_tell(a: nat, b: nat)
    requires
        dec(a) == dec(b),
    ensures
        a == b,
    decreases a,
{
    lemma_numeral_length(a);
    lemma_numeral_length(b);
    if a < 10 {
        assert(b < 10);
        assert(dec(a)[0] == digit(a) && dec(b)[0] == digit(b));
    } else {
        assert(b >= 10);
        let x = dec(a / 10);
        let y = dec(b / 10);
        assert(x.push(digit(a % 10)).drop_last() =~= x);
        assert(y.push(digit(b % 10)).drop_last() =~= y);
        assert(x.push(digit(a % 10)).last() == digit(a % 10));
        assert(y.push(digit(b % 10)).last() == digit(b % 10));
        lemma_numerals_tell(a / 10, b / 10);
        assert(a == 10 * (a / 10) + a % 10);
        assert(b == 10 * (b / 10) + b % 10);
    }
}

/// The decimal numeral of an integer, with a leading `-` when negative.
pub open spec fn dec_int(n: int) -> Seq<char> {
    if n < 0 {
        seq!['-'] + dec((-n) as nat)
    } else {
        dec(n as nat)
    }
}

fn digit_char(d: u64) -> (c: char)
    requires
        d < 10,
    ensures
        c == digit(d as nat),
{
    match d {
        0 => '0',
        1 => '1',
        2 => '2',
        3 => '3',
        4 => '4',
        5 => '5',
        6 => '6',
        7 => '7',
        8 => '8',
        _ => '9',
    }
}

/// Appends the decimal numeral of `n`.
pub fn push_dec(out: &mut String, n: u64)
    ensures
        final(out)@ == old(out)@ + dec(n as nat),
    decreases n,
{
    if n < 10 {
        out.push(digit_char(n));
        assert(out@ =~= old(out)@ + dec(n as nat));
    } else {
        push_dec(out, n / 10);
        out.push(digit_char(n % 10));
        assert(out@ =~= old(out)@ + dec(n as nat));
    }
}

/// The decimal numeral of a `usize`.
pub fn dec_usize(n: usize) -> (s: String)
    ensures
        s@ == dec(n as nat),
{
    let mut out = String::new();
    push_dec(&mut out, n as u64);
    assert(out@ =~= dec(n as nat));
    out
}

/// The decimal numeral of a `u32`.
pub fn dec_u32(n: u32) -> (s: String)
    ensures
        s@ == dec(n as nat),
{
    let mut out = String::new();
    push_dec(&mut out, n as u64);
    assert(out@ =~= dec(n as nat));
    out
}

/// The decimal numeral of an `i64`.
pub fn dec_i64(n: i64) -> (s: String)
    ensures
        s@ == dec_int(n as int),
{
    let mut out = String::new();
    if n < 0 {
        out.push('-');
        let m: i128 = -(n as i128);
        push_dec(&mut out, m as u64);
        assert(out@ =~= dec_int(n as int));
    } else {
        push_dec(&mut out, n as u64);
        assert(out@ =~= dec_int(n as int));
    }
    out
}

// ----- concatenation ----------------------------------------------------------
/// The concatenation of two texts.
pub fn cat2(a: &str, b: &str) -> (s: String)
    ensures
        s@ == a@ + b@,
{
    let mut out = String::from_str(a);
    out.append(b);
    out
}

/// The concatenation of three texts.
pub fn cat3(a: &str, b: &str, c: &str) -> (s: String)
    ensures
        s@ == a@ + b@ + c@,
{
    let mut out = cat2(a, b);
    out.append(c);
    out
}

/// The concatenation of four texts.
pub fn cat4(a: &str, b: &str, c: &str, d: &str) -> (s: String)
    ensures
        s@ == a@ + b@ + c@ + d@,
{
    let mut out = cat3(a, b, c);
    out.append(d);
    out
}

/// The concatenation of five texts.
pub fn cat5(a: &str, b: &str, c: &str, d: &str, e: &str) -> (s: String)
    ensures
        s@ == a@ + b@ + c@ + d@ + e@,
{
    let mut out = cat4(a, b, c, d);
    out.append(e);
    out
}

/// The concatenation of six texts.
pub fn cat6(a: &str, b: &str, c: &str, d: &str, e: &str, f: &str) -> (s: String)
    ensures
        s@ == a@ + b@ + c@ + d@ + e@ + f@,
{
    let mut out = cat5(a, b, c, d, e);
    out.append(f);
    out
}

/// The concatenation of seven texts.
pub fn cat7(a: &str, b: &str, c: &str, d: &str, e: &str, f: &str, g: &str) -> (s: String)
    ensures
        s@ == a@ + b@ + c@ + d@ + e@ + f@ + g@,
{
    let mut out = cat6(a, b, c, d, e, f);
    out.append(g);
    out
}

/// The concatenation of eight texts.
pub fn cat8(a: &str, b: &str, c: &str, d: &str, e: &str, f: &str, g: &str, h: &str) -> (s: String)
    ensures
        s@ == a@ + b@ + c@ + d@ + e@ + f@ + g@ + h@,
{
    let mut out = cat7(a, b, c, d, e, f, g);
    out.append(h);
    out
}

// ----- repetition -------------------------------------------------------------
/// `n` copies of `c`.
pub open spec fn repeated(c: char, n: nat) -> Seq<char> {
    Seq::new(n, |i: int| c)
}

/// A text made of `n` copies of `c`.
pub fn repeat_char(c: char, n: usize) -> (s: String)
    ensures
        s@ == repeated(c, n as nat),
{
    let mut out = String::new();
    let mut i: usize = 0;
    while i < n
        invariant
            i <= n,
            out@ =~= repeated(c, i as nat),
        decreases n - i,
    {
        out.push(c);
        i = i + 1;
    }
    out
}

// ----- characters ---------------------------------------------------------------
/// The characters of a text, in order.
pub fn chars_of(s: &str) -> (v: Vec<char>)
    ensures
        v@ == s@,
{
    let mut out: Vec<char> = Vec::new();
    for c in it: s.chars()
        invariant
            out@ =~= it.seq().take(it.index()),
            it.seq() == s@,
    {
        out.push(c);
    }
    out
}

/// The text of `chars[from..to]`.
pub fn text_of(chars: &Vec<char>, from: usize, to: usize) -> (s: String)
    requires
        from <= to <= chars@.len(),
    ensures
        s@ == chars@.subrange(from as int, to as int),
{
    let mut out = String::new();
    let mut i: usize = from;
    while i < to
        invariant
            from <= i <= to <= chars@.len(),
            out@ =~= chars@.subrange(from as int, i as int),
        decreases to - i,
    {
        out.push(chars[i]);
        i = i + 1;
    }
    out
}

// ----- lines ----------------------------------------------------------------------
/// The position of the first newline of `s` at or after `i`, or its length.
pub open spec fn line_end(s: Seq<char>, i: int) -> int
    decreases s.len() - i,
{
    if i < 0 || i >= s.len() {
        s.len() as int
    } else if s[i] == '\n' {
        i
    } else {
        line_end(s, i + 1)
    }
}

/// A line that ended in a newline, without a carriage return before it.
pub open spec fn strip_cr(line: Seq<char>) -> Seq<char> {
    if line.len() > 0 && line.last() == '\r' {
        line.drop_last()
    } else {
        line
    }
}

/// The lines of `s` from position `i` on: text between newlines, where a
/// newline at the very end opens no further line and `\r\n` counts as one
/// newline.
pub open spec fn lines_from(s: Seq<char>, i: int) -> Seq<Seq<char>>
    decreases s.len() - i,
    via lines_from_decreases
{
    if i < 0 || i >= s.len() {
        Seq::empty()
    } else {
        let e = line_end(s, i);
        if e < s.len() {
            seq![strip_cr(s.subrange(i, e))] + lines_from(s, e + 1)
        } else {
            seq![s.subrange(i, e)]
        }
    }
}

#[via_fn]
proof fn lines_from_decreases(s: Seq<char>, i: int) {
    if 0 <= i < s.len() {
        lemma_line_end_bounds(s, i);
    }
}

/// The end of a line lies between its start and the end of the text.
pub proof fn lemma_line_end_bounds(s: Seq<char>, i: int)
    requires
        0 <= i <= s.len(),
    ensures
        i <= line_end(s, i) <= s.len(),
    decreases s.len() - i,
{
    if i < s.len() && s[i] != '\n' {
        lemma_line_end_bounds(s, i + 1);
    }
}

/// The lines of a text.
pub open spec fn lines(s: Seq<char>) -> Seq<Seq<char>> {
    lines_from(s, 0)
}

/// The contents of a vector of vectors.
pub open spec fn nested(v: Seq<Vec<char>>) -> Seq<Seq<char>> {
    Seq::new(v.len(), |i: int| v[i]@)
}

/// Splits a text into its lines.
pub fn split_lines(s: &Vec<char>) -> (v: Vec<Vec<char>>)
    ensures
        nested(v@) == lines(s@),
        v@.len() <= s@.len(),
{
    let mut out: Vec<Vec<char>> = Vec::new();
    let mut i: usize = 0;
    assert(nested(out@) + lines_from(s@, 0) =~= lines(s@));
    while i < s.len()
        invariant
            i <= s@.len(),
            out@.len() <= i,
            nested(out@) + lines_from(s@, i as int) == lines(s@),
        decreases s@.len() - i,
    {
        let start = i;
        let mut line: Vec<char> = Vec::new();
        while i < s.len() && s[i] != '\n'
            invariant
                start <= i <= s@.len(),
                start < s@.len(),
                line@ =~= s@.subrange(start as int, i as int),
                line_end(s@, start as int) == line_end(s@, i as int),
            decreases s@.len() - i,
        {
            line.push(s[i]);
            i = i + 1;
        }
        let ghost before = nested(out@);
        proof {
            lemma_line_end_bounds(s@, start as int);
        }
        if i < s.len() {
            if line.len() > 0 && line[line.len() - 1] == '\r' {
                line.pop();
            }
            i = i + 1;
            let ghost head = line@;
            out.push(line);
            assert(nested(out@) =~= before.push(head));
            assert(nested(out@) + lines_from(s@, i as int) =~= before + (seq![head] + lines_from(
                s@,
                i as int,
            )));
        } else {
            let ghost head = line@;
            out.push(line);
            assert(nested(out@) =~= before.push(head));
            assert(nested(out@) + lines_from(s@, i as int) =~= before + seq![head]);
        }
    }
    assert(nested(out@) + lines_from(s@, i as int) =~= nested(out@));
    out
}

// ----- UTF-8 widths -------------------------------------------------------------------
/// The number of bytes that UTF-8 uses for `c`.
pub open spec fn width(c: char) -> nat {
    if (c as u32) < 0x80 {
        1
    } else if (c as u32) < 0x800 {
        2
    } else if (c as u32) < 0x10000 {
        3
    } else {
        4
    }
}

/// The number of bytes that UTF-8 uses for `s`.
pub open spec fn byte_len(s: Seq<char>) -> nat
    decreases s.len(),
{
    if s.len() == 0 {
        0
    } else {
        byte_len(s.drop_last()) + width(s.last())
    }
}

/// A number capped at the largest `usize`.
pub open spec fn capped(n: int) -> usize {
    if n <= usize::MAX {
        n as usize
    } else {
        usize::MAX
    }
}

/// The number of bytes of `chars[from..to]` in UTF-8, capped at the largest
/// `usize`.
pub fn bytes_between(chars: &Vec<char>, from: usize, to: usize) -> (n: usize)
    requires
        from <= to <= chars@.len(),
    ensures
        n == capped(byte_len(chars@.subrange(from as int, to as int)) as int),
{
    let mut n: usize = 0;
    let mut i: usize = from;
    while i < to
        invariant
            from <= i <= to <= chars@.len(),
            n == capped(byte_len(chars@.subrange(from as int, i as int)) as int),
        decreases to - i,
    {
        let c: char = chars[i];
        let u: u32 = c as u32;
        let w: usize = if u < 0x80 {
            1
        } else if u < 0x800 {
            2
        } else if u < 0x10000 {
            3
        } else {
            4
        };
        proof {
            let longer = chars@.subrange(from as int, i + 1);
            assert(longer.drop_last() =~= chars@.subrange(from as int, i as int));
            assert(longer.last() == c);
        }
        n = n.saturating_add(w);
        i = i + 1;
    }
    n
}

} // verus!
