//! What the texts of a module hold and what they make of values.
//!
//! Numerals, the constants of a module and the formats that are handed to C are
//! read back here by the rules of those who read them: decimal notation, LLVM's
//! string constants, UTF-8, and the directives of C's `printf`.
use vstd::prelude::*;
use crate::ast::Type;
use crate::ir::{Callee, Fixed, Ins, Libc, Ty, Val};
use crate::lowering::{
    bool_text, call, literal, low_print, low_str, pass, printf, text_index, Gen, ModuleV,
};
use crate::printing::{
    all_libc_text, constant_text, escape_byte, escape_char, escaped, externs_text, fixed_name,
    fixed_text, fns_text, hex_digit, lits_text, module_text, preamble, val_text,
};
use crate::text::{byte_len, dec, dec_int, width};

verus! {

// ----- numerals ----------------------------------------------------------------------------------
/// The number that decimal digits stand for.
pub open spec fn number(s: Seq<char>) -> int
    decreases s.len(),
{
    if s.len() == 0 {
        0
    } else {
        10 * number(s.drop_last()) + (s.last() as int - '0' as int)
    }
}

/// Whether a text is a number in decimal notation: digits, none in vain in front.
pub open spec fn numeral(s: Seq<char>) -> bool {
    &&& s.len() > 0
    &&& forall|i: int| 0 <= i < s.len() ==> '0' <= #[trigger] s[i] <= '9'
    &&& s[0] == '0' ==> s.len() == 1
}

/// A natural number is written in decimal notation.
pub proof fn law_naturals_are_numerals(n: nat)
    ensures
        numeral(dec(n)),
        number(dec(n)) == n,
        n > 0 ==> dec(n)[0] != '0',
    decreases n,
{
    if n < 10 {
        reveal_with_fuel(number, 2);
        assert(dec(n).drop_last() =~= Seq::<char>::empty());
    } else {
        law_naturals_are_numerals(n / 10);
        assert(dec(n).drop_last() =~= dec(n / 10));
        assert(dec(n)[0] == dec(n / 10)[0]);
    }
}

/// An integer is written in decimal notation, behind a minus sign if it is
/// negative.
pub proof fn law_integers_are_numerals(n: int)
    ensures
        n >= 0 ==> numeral(dec_int(n)) && number(dec_int(n)) == n,
        n < 0 ==> dec_int(n)[0] == '-' && numeral(dec_int(n).skip(1)) && number(
            dec_int(n).skip(1),
        ) == -n,
{
    if n < 0 {
        law_naturals_are_numerals((-n) as nat);
        assert(dec_int(n).skip(1) =~= dec((-n) as nat));
    } else {
        law_naturals_are_numerals(n as nat);
    }
}

// ----- string constants --------------------------------------------------------------------------
/// What a hexadecimal digit stands for.
pub open spec fn hex_value(c: char) -> int {
    if '0' <= c <= '9' {
        c as int - '0' as int
    } else {
        10 + (c as int - 'A' as int)
    }
}

/// The bytes that LLVM makes of what stands between the quotes of a string
/// constant: a backslash and two hexadecimal digits are one byte, as is anything
/// else.
pub open spec fn bytes_of(t: Seq<char>) -> Seq<int>
    decreases t.len(),
{
    if t.len() == 0 {
        Seq::empty()
    } else if t[0] == '\\' && t.len() >= 3 {
        seq![16 * hex_value(t[1]) + hex_value(t[2])] + bytes_of(t.skip(3))
    } else {
        seq![t[0] as int] + bytes_of(t.skip(1))
    }
}

/// How many bytes the character with that number has in UTF-8.
pub open spec fn size(n: int) -> int {
    if n < 0x80 {
        1
    } else if n < 0x800 {
        2
    } else if n < 0x10000 {
        3
    } else {
        4
    }
}

/// Whether bytes are the character with that number in UTF-8: the first byte says
/// how many there are, and each of the others holds six bits.
pub open spec fn encodes(b: Seq<int>, n: int) -> bool {
    &&& b.len() == size(n)
    &&& b.len() == 1 ==> b[0] == n
    &&& b.len() == 2 ==> 0xc0 <= b[0] < 0xe0 && 0x80 <= b[1] < 0xc0 && n == (b[0] - 0xc0) * 64 + (
    b[1] - 0x80)
    &&& b.len() == 3 ==> 0xe0 <= b[0] < 0xf0 && 0x80 <= b[1] < 0xc0 && 0x80 <= b[2] < 0xc0 && n
        == (b[0] - 0xe0) * 4096 + (b[1] - 0x80) * 64 + (b[2] - 0x80)
    &&& b.len() == 4 ==> 0xf0 <= b[0] < 0xf8 && 0x80 <= b[1] < 0xc0 && 0x80 <= b[2] < 0xc0 && 0x80
        <= b[3] < 0xc0 && n == (b[0] - 0xf0) * 262144 + (b[1] - 0x80) * 4096 + (b[2] - 0x80) * 64
        + (b[3] - 0x80)
}

/// Whether bytes are a text in UTF-8.
pub open spec fn decodes(b: Seq<int>, s: Seq<char>) -> bool
    decreases s.len(),
{
    if s.len() == 0 {
        b.len() == 0
    } else {
        let k = size(s[0] as int);
        k <= b.len() && encodes(b.take(k), s[0] as int) && decodes(b.skip(k), s.skip(1))
    }
}

/// Whether a text defines the constant of a name that holds another text: two
/// words in front, then its bytes in UTF-8 and a zero byte, as many as are
/// announced.
pub open spec fn defines(text: Seq<char>, name: Seq<char>, s: Seq<char>) -> bool {
    exists|before: Seq<char>, n: nat, body: Seq<char>, after: Seq<char>|
        #[trigger] definition(before, name, n, body, after) == text && decodes(
            bytes_of(body),
            s.push('\0'),
        ) && bytes_of(body).len() == n && !body.contains('"')
}

/// A text with the definition of a constant in it.
pub open spec fn definition(
    before: Seq<char>,
    name: Seq<char>,
    n: nat,
    body: Seq<char>,
    after: Seq<char>,
) -> Seq<char> {
    before + (name + " = private constant { i64, i64, ["@ + dec(n)
        + " x i8] } { i64 0, i64 -1, ["@ + dec(n) + " x i8] c\""@ + body + "\" }\n"@) + after
}

/// A pointer to what stands behind the two words in front of a constant.
pub open spec fn pointer(name: Seq<char>) -> Seq<char> {
    "getelementptr (i8, ptr "@ + name + ", i64 "@ + dec(2 * 8) + ")"@
}

proof fn lemma_hex(b: nat, rest: Seq<char>)
    requires
        b < 256,
    ensures
        bytes_of(escape_byte(b) + rest) == seq![b as int] + bytes_of(rest),
        escape_byte(b).len() == 3,
        !escape_byte(b).contains('"'),
{
    let t = escape_byte(b) + rest;
    assert(t.skip(3) =~= rest);
    assert(hex_value(hex_digit(b / 16)) == b / 16);
    assert(hex_value(hex_digit(b % 16)) == b % 16);
}

/// What is written for a character is its UTF-8 to LLVM.
proof fn lemma_char(c: char, rest: Seq<char>)
    ensures
        bytes_of(escape_char(c) + rest) == bytes_of(escape_char(c)) + bytes_of(rest),
        encodes(bytes_of(escape_char(c)), c as int),
        bytes_of(escape_char(c)).len() == width(c),
        !escape_char(c).contains('"'),
{
    let n = c as u32 as nat;
    let none = Seq::<char>::empty();
    assert(bytes_of(none) =~= Seq::<int>::empty());
    assert(escape_char(c) + none =~= escape_char(c));
    let bytes = if n < 0x80 {
        lemma_plain(c, rest);
        lemma_plain(c, none);
        seq![n as int]
    } else if n < 0x800 {
        let (a, b) = (0xc0 + n / 64, 0x80 + n % 64);
        lemma_two(a, b, rest);
        lemma_two(a, b, none);
        seq![a as int, b as int]
    } else if n < 0x10000 {
        let (a, b, d) = (0xe0 + n / 4096, 0x80 + (n / 64) % 64, 0x80 + n % 64);
        lemma_three(a, b, d, rest);
        lemma_three(a, b, d, none);
        seq![a as int, b as int, d as int]
    } else {
        let (a, b) = (0xf0 + n / 262144, 0x80 + (n / 4096) % 64);
        let (d, e) = (0x80 + (n / 64) % 64, 0x80 + n % 64);
        lemma_four(a, b, d, e, rest);
        lemma_four(a, b, d, e, none);
        seq![a as int, b as int, d as int, e as int]
    };
    assert(bytes_of(escape_char(c)) =~= bytes);
    lemma_pieces(n as int);
}

/// A number in pieces of six bits.
proof fn lemma_pieces(n: int)
    requires
        0 <= n,
    ensures
        n == 64 * (n / 64) + n % 64,
        n / 64 == 64 * (n / 4096) + (n / 64) % 64,
        n / 4096 == 64 * (n / 262144) + (n / 4096) % 64,
{
}

proof fn lemma_plain(c: char, rest: Seq<char>)
    requires
        (c as u32) < 0x80,
    ensures
        bytes_of(escape_char(c) + rest) == seq![c as int] + bytes_of(rest),
        !escape_char(c).contains('"'),
{
    let n = c as u32 as nat;
    if 0x20 <= n < 0x7f && c != '"' && c != '\\' {
        assert((seq![c] + rest).skip(1) =~= rest);
    } else {
        lemma_hex(n, rest);
    }
}

proof fn lemma_two(a: nat, b: nat, rest: Seq<char>)
    requires
        a < 256,
        b < 256,
    ensures
        bytes_of(escape_byte(a) + escape_byte(b) + rest) == seq![a as int, b as int] + bytes_of(
            rest,
        ),
        !(escape_byte(a) + escape_byte(b)).contains('"'),
{
    lemma_hex(b, rest);
    lemma_hex(a, escape_byte(b) + rest);
    assert(escape_byte(a) + escape_byte(b) + rest =~= escape_byte(a) + (escape_byte(b) + rest));
    assert(seq![a as int] + (seq![b as int] + bytes_of(rest)) =~= seq![a as int, b as int]
        + bytes_of(rest));
}

proof fn lemma_three(a: nat, b: nat, c: nat, rest: Seq<char>)
    requires
        a < 256,
        b < 256,
        c < 256,
    ensures
        bytes_of(escape_byte(a) + escape_byte(b) + escape_byte(c) + rest) == seq![
            a as int,
            b as int,
            c as int,
        ] + bytes_of(rest),
        !(escape_byte(a) + escape_byte(b) + escape_byte(c)).contains('"'),
{
    lemma_hex(c, rest);
    lemma_two(a, b, escape_byte(c) + rest);
    assert(escape_byte(a) + escape_byte(b) + escape_byte(c) + rest =~= escape_byte(a)
        + escape_byte(b) + (escape_byte(c) + rest));
    assert(seq![a as int, b as int] + (seq![c as int] + bytes_of(rest)) =~= seq![
        a as int,
        b as int,
        c as int,
    ] + bytes_of(rest));
}

proof fn lemma_four(a: nat, b: nat, c: nat, d: nat, rest: Seq<char>)
    requires
        a < 256,
        b < 256,
        c < 256,
        d < 256,
    ensures
        bytes_of(escape_byte(a) + escape_byte(b) + escape_byte(c) + escape_byte(d) + rest) == seq![
            a as int,
            b as int,
            c as int,
            d as int,
        ] + bytes_of(rest),
        !(escape_byte(a) + escape_byte(b) + escape_byte(c) + escape_byte(d)).contains('"'),
{
    lemma_hex(d, rest);
    lemma_three(a, b, c, escape_byte(d) + rest);
    assert(escape_byte(a) + escape_byte(b) + escape_byte(c) + escape_byte(d) + rest
        =~= escape_byte(a) + escape_byte(b) + escape_byte(c) + (escape_byte(d) + rest));
    assert(seq![a as int, b as int, c as int] + (seq![d as int] + bytes_of(rest)) =~= seq![
        a as int,
        b as int,
        c as int,
        d as int,
    ] + bytes_of(rest));
}

proof fn lemma_one_more(a: Seq<int>, s: Seq<char>, b: Seq<int>, c: char)
    requires
        decodes(a, s),
        encodes(b, c as int),
    ensures
        decodes(a + b, s.push(c)),
    decreases s.len(),
{
    let t = s.push(c);
    if s.len() == 0 {
        assert((a + b).take(size(c as int)) =~= b);
        assert((a + b).skip(size(c as int)) =~= Seq::<int>::empty());
        assert(t.skip(1) =~= Seq::<char>::empty());
        assert(decodes((a + b).skip(size(c as int)), t.skip(1)));
    } else {
        let k = size(s[0] as int);
        lemma_one_more(a.skip(k), s.skip(1), b, c);
        assert((a + b).take(k) =~= a.take(k));
        assert((a + b).skip(k) =~= a.skip(k) + b);
        assert(t.skip(1) =~= s.skip(1).push(c));
    }
}

proof fn lemma_escaped(s: Seq<char>, n: nat, rest: Seq<char>)
    requires
        n <= s.len(),
    ensures
        bytes_of(escaped(s, n) + rest) == bytes_of(escaped(s, n)) + bytes_of(rest),
        decodes(bytes_of(escaped(s, n)), s.take(n as int)),
        bytes_of(escaped(s, n)).len() == byte_len(s.take(n as int)),
        !escaped(s, n).contains('"'),
    decreases n,
{
    if n == 0 {
        assert(escaped(s, n) + rest =~= rest);
        assert(s.take(0) =~= Seq::<char>::empty());
        assert(bytes_of(escaped(s, n)) =~= Seq::<int>::empty());
    } else {
        let m = (n - 1) as nat;
        let c = s[m as int];
        let last = escape_char(c);
        lemma_escaped(s, m, last);
        lemma_escaped(s, m, last + rest);
        lemma_char(c, rest);
        assert(escaped(s, n) + rest =~= escaped(s, m) + (last + rest));
        assert(s.take(n as int) =~= s.take(m as int).push(c));
        assert(s.take(n as int).drop_last() =~= s.take(m as int));
        lemma_one_more(bytes_of(escaped(s, m)), s.take(m as int), bytes_of(last), c);
        assert(bytes_of(escaped(s, m)) + (bytes_of(last) + bytes_of(rest)) =~= bytes_of(
            escaped(s, m),
        ) + bytes_of(last) + bytes_of(rest));
        assert forall|i: int| 0 <= i < escaped(s, n).len() implies escaped(s, n)[i] != '"' by {
            if i < escaped(s, m).len() {
                assert(escaped(s, m).contains(escaped(s, m)[i]));
            } else {
                assert(last.contains(last[i - escaped(s, m).len()]));
            }
        }
    }
}

/// The definition of a constant makes LLVM hold the text and a zero byte.
pub proof fn law_constants_hold_their_texts(
    before: Seq<char>,
    name: Seq<char>,
    s: Seq<char>,
    after: Seq<char>,
)
    requires
        byte_len(s.push('\0')) <= usize::MAX,
    ensures
        defines(before + constant_text(name, s) + after, name, s),
{
    let t = s.push('\0');
    lemma_escaped(t, t.len(), Seq::empty());
    assert(t.take(t.len() as int) =~= t);
    let body = escaped(t, t.len());
    let n = byte_len(t);
    assert(definition(before, name, n, body, after) == before + constant_text(name, s) + after);
}

// ----- formats -----------------------------------------------------------------------------------
/// What is handed to C to be shown: an integer, a floating-point number, or the
/// address of a text.
pub enum Given {
    Number(int),
    Real(int),
    Text(Seq<char>),
}

/// What C's `printf` makes of a format and what it is given: a directive is
/// replaced by the next of the values, as a decimal number, a floating-point
/// number in its shorter form (`general` says how C writes it) or a text. `None` if a
/// directive does not fit, or if something given is not shown.
pub open spec fn shown(
    general: spec_fn(int) -> Seq<char>,
    format: Seq<char>,
    given: Seq<Given>,
) -> Option<Seq<char>>
    decreases format.len(),
{
    if format.len() == 0 {
        if given.len() == 0 {
            Some(Seq::empty())
        } else {
            None
        }
    } else if format[0] != '%' {
        prefixed(seq![format[0]], shown(general, format.skip(1), given))
    } else if given.len() == 0 {
        None
    } else {
        let rest = given.skip(1);
        match given[0] {
            Given::Number(n) => if format.len() >= 4 && format.take(4) == "%lld"@ {
                prefixed(dec_int(n), shown(general, format.skip(4), rest))
            } else {
                None
            },
            Given::Real(x) => if format.len() >= 2 && format.take(2) == "%g"@ {
                prefixed(general(x), shown(general, format.skip(2), rest))
            } else {
                None
            },
            Given::Text(t) => if format.len() >= 2 && format.take(2) == "%s"@ {
                prefixed(t, shown(general, format.skip(2), rest))
            } else {
                None
            },
        }
    }
}

/// A text in front of what comes behind it, if that comes.
pub open spec fn prefixed(s: Seq<char>, rest: Option<Seq<char>>) -> Option<Seq<char>> {
    match rest {
        Some(t) => Some(s + t),
        None => None,
    }
}

/// What stands between the directives is shown as it is.
proof fn lemma_plain_text(
    general: spec_fn(int) -> Seq<char>,
    plain: Seq<char>,
    rest: Seq<char>,
    given: Seq<Given>,
)
    requires
        forall|i: int| 0 <= i < plain.len() ==> #[trigger] plain[i] != '%',
    ensures
        shown(general, plain + rest, given) == prefixed(plain, shown(general, rest, given)),
    decreases plain.len(),
{
    let after = shown(general, rest, given);
    if plain.len() == 0 {
        assert(plain + rest =~= rest);
        if let Some(t) = after {
            assert(plain + t =~= t);
        }
    } else {
        lemma_plain_text(general, plain.skip(1), rest, given);
        assert((plain + rest).skip(1) =~= plain.skip(1) + rest);
        if let Some(t) = after {
            assert(seq![plain[0]] + (plain.skip(1) + t) =~= plain + t);
        }
    }
}

/// A directive shows the first of what is given.
proof fn lemma_directives(
    general: spec_fn(int) -> Seq<char>,
    first: Given,
    rest: Seq<char>,
    given: Seq<Given>,
)
    ensures
        shown(
            general,
            (match first {
                Given::Number(_) => "%lld"@,
                Given::Real(_) => "%g"@,
                Given::Text(_) => "%s"@,
            }) + rest,
            seq![first] + given,
        ) == prefixed(
            match first {
                Given::Number(n) => dec_int(n),
                Given::Real(x) => general(x),
                Given::Text(t) => t,
            },
            shown(general, rest, given),
        ),
{
    reveal_strlit("%lld");
    reveal_strlit("%g");
    reveal_strlit("%s");
    assert((seq![first] + given).skip(1) =~= given);
    match first {
        Given::Number(_) => {
            assert(("%lld"@ + rest).take(4) =~= "%lld"@);
            assert(("%lld"@ + rest).skip(4) =~= rest);
        },
        Given::Real(_) => {
            assert(("%g"@ + rest).take(2) =~= "%g"@);
            assert(("%g"@ + rest).skip(2) =~= rest);
        },
        Given::Text(_) => {
            assert(("%s"@ + rest).take(2) =~= "%s"@);
            assert(("%s"@ + rest).skip(2) =~= rest);
        },
    }
}

/// A directive alone shows what it is given, and nothing else.
proof fn lemma_alone(general: spec_fn(int) -> Seq<char>, first: Given, end: Seq<char>)
    requires
        end == ""@ || end == "\n"@,
    ensures
        shown(
            general,
            (match first {
                Given::Number(_) => "%lld"@,
                Given::Real(_) => "%g"@,
                Given::Text(_) => "%s"@,
            }) + end,
            seq![first],
        ) == Some(
            (match first {
                Given::Number(n) => dec_int(n),
                Given::Real(x) => general(x),
                Given::Text(t) => t,
            }) + end,
        ),
{
    reveal_strlit("");
    reveal_strlit("\n");
    let none = Seq::<Given>::empty();
    lemma_directives(general, first, end, none);
    lemma_plain_text(general, end, Seq::empty(), none);
    assert(end + Seq::<char>::empty() =~= end);
    assert(seq![first] + none =~= seq![first]);
}

/// The fixed texts of a module that are handed to C: an integer is shown in
/// decimal notation, a floating-point number as C shows one, and an index out of
/// bounds with the length that it is out of.
pub proof fn law_fixed_texts_show_what_they_are_given(
    m: ModuleV,
    general: spec_fn(int) -> Seq<char>,
    n: int,
    k: int,
)
    ensures
        exists|name: Seq<char>, format: Seq<char>|
            #![trigger defines(module_text(m), name, format)]
            defines(module_text(m), name, format) && val_text(m, Val::Fixed(Fixed::IntFormat))
                == pointer(name) && shown(general, format, seq![Given::Number(n)]) == Some(
                dec_int(n),
            ),
        exists|name: Seq<char>, format: Seq<char>|
            #![trigger defines(module_text(m), name, format)]
            defines(module_text(m), name, format) && val_text(m, Val::Fixed(Fixed::FloatFormat))
                == pointer(name)
                    && shown(general, format, seq![Given::Real(n)]) == Some(general(n)),
        exists|name: Seq<char>, format: Seq<char>|
            #![trigger defines(module_text(m), name, format)]
            defines(module_text(m), name, format) && val_text(m, Val::Fixed(Fixed::OutOfBounds))
                == pointer(name) && shown(
                general,
                format,
                seq![Given::Number(n), Given::Number(k)],
            ) == Some(
                "xia: index "@ + dec_int(n) + " out of bounds for array of length "@ + dec_int(k)
                    + "\n"@,
            ),
{
    lemma_fixed_texts(m);
    lemma_pointer("@str.int"@);
    lemma_pointer("@str.float"@);
    lemma_pointer("@str.bounds"@);
    reveal_strlit("");
    lemma_alone(general, Given::Number(n), ""@);
    lemma_alone(general, Given::Real(n), ""@);
    assert("%lld"@ + ""@ =~= "%lld"@);
    assert("%g"@ + ""@ =~= "%g"@);
    assert(dec_int(n) + ""@ =~= dec_int(n));
    assert(general(n) + ""@ =~= general(n));
    lemma_message(general, n, k);
}

proof fn lemma_fixed_texts(m: ModuleV)
    ensures
        defines(module_text(m), fixed_name(Fixed::IntFormat), "%lld"@),
        defines(module_text(m), fixed_name(Fixed::FloatFormat), "%g"@),
        defines(
            module_text(m),
            fixed_name(Fixed::OutOfBounds),
            "xia: index %lld out of bounds for array of length %lld\n"@,
        ),
{
    let (a, b) = (fixed_name(Fixed::IntFormat), fixed_name(Fixed::FloatFormat));
    let c = fixed_name(Fixed::OutOfBounds);
    let message = "xia: index %lld out of bounds for array of length %lld\n"@;
    let front = preamble() + all_libc_text(m) + externs_text(m.symbols, m.symbols.len());
    let back = lits_text(m.lits, m.lits.len()) + "\n"@ + fns_text(m, m.functions.len());
    let (x, y) = (constant_text(a, "%lld"@), constant_text(b, "%g"@));
    let z = constant_text(c, message);
    lemma_regroup(front, x, y, z, lits_text(m.lits, m.lits.len()), "\n"@,
        fns_text(m, m.functions.len()));
    lemma_fixed_sizes();
    law_constants_hold_their_texts(front, a, "%lld"@, y + z + back);
    law_constants_hold_their_texts(front + x, b, "%g"@, z + back);
    law_constants_hold_their_texts(front + x + y, c, message, back);
}

proof fn lemma_regroup(
    front: Seq<char>,
    x: Seq<char>,
    y: Seq<char>,
    z: Seq<char>,
    a: Seq<char>,
    b: Seq<char>,
    c: Seq<char>,
)
    ensures
        front + (x + y + z) + a + b + c == front + x + (y + z + (a + b + c)),
        front + (x + y + z) + a + b + c == (front + x) + y + (z + (a + b + c)),
        front + (x + y + z) + a + b + c == (front + x + y) + z + (a + b + c),
{
}

proof fn lemma_message(general: spec_fn(int) -> Seq<char>, n: int, k: int)
    ensures
        shown(
            general,
            "xia: index %lld out of bounds for array of length %lld\n"@,
            seq![Given::Number(n), Given::Number(k)],
        ) == Some(
            "xia: index "@ + dec_int(n) + " out of bounds for array of length "@ + dec_int(k)
                + "\n"@,
        ),
{
    let message = "xia: index %lld out of bounds for array of length %lld\n"@;
    let (one, two) = ("xia: index "@, " out of bounds for array of length "@);
    reveal_strlit("xia: index %lld out of bounds for array of length %lld\n");
    reveal_strlit("xia: index ");
    reveal_strlit(" out of bounds for array of length ");
    reveal_strlit("%lld");
    reveal_strlit("\n");
    assert(message =~= one + ("%lld"@ + (two + ("%lld"@ + "\n"@))));
    let all = seq![Given::Number(n), Given::Number(k)];
    let last = seq![Given::Number(k)];
    lemma_plain_text(general, one, "%lld"@ + (two + ("%lld"@ + "\n"@)), all);
    assert(all =~= seq![Given::Number(n)] + last);
    lemma_directives(general, Given::Number(n), two + ("%lld"@ + "\n"@), last);
    lemma_plain_text(general, two, "%lld"@ + "\n"@, last);
    lemma_alone(general, Given::Number(k), "\n"@);
    assert(one + (dec_int(n) + (two + (dec_int(k) + "\n"@))) =~= one + dec_int(n) + two + dec_int(
        k,
    ) + "\n"@);
}

proof fn lemma_pointer(name: Seq<char>)
    ensures
        pointer(name) == "getelementptr (i8, ptr "@ + name + ", i64 16)"@,
{
    reveal_strlit(", i64 16)");
    reveal_strlit(", i64 ");
    reveal_strlit(")");
    reveal_with_fuel(dec, 3);
    assert(dec(16) =~= seq!['1', '6']);
    assert(pointer(name) =~= "getelementptr (i8, ptr "@ + name + ", i64 16)"@);
}

proof fn lemma_short(s: Seq<char>)
    ensures
        byte_len(s) <= 4 * s.len(),
    decreases s.len(),
{
    if s.len() > 0 {
        lemma_short(s.drop_last());
    }
}

proof fn lemma_fixed_sizes()
    ensures
        byte_len("%lld"@.push('\0')) <= usize::MAX,
        byte_len("%g"@.push('\0')) <= usize::MAX,
        byte_len("xia: index %lld out of bounds for array of length %lld\n"@.push('\0'))
            <= usize::MAX,
{
    reveal_strlit("%lld");
    reveal_strlit("%g");
    reveal_strlit("xia: index %lld out of bounds for array of length %lld\n");
    lemma_short("%lld"@.push('\0'));
    lemma_short("%g"@.push('\0'));
    lemma_short("xia: index %lld out of bounds for array of length %lld\n"@.push('\0'));
}

/// The texts of fixed constants and of literals have names of their own.
pub proof fn law_constants_have_names_of_their_own(f: Fixed, h: Fixed, i: nat, j: nat)
    ensures
        f != h ==> fixed_name(f) != fixed_name(h),
        i != j ==> "@str.lit."@ + dec(i) != "@str.lit."@ + dec(j),
        fixed_name(f) != "@str.lit."@ + dec(i),
{
    reveal_strlit("@str.int");
    reveal_strlit("@str.float");
    reveal_strlit("@str.bounds");
    reveal_strlit("@str.lit.");
    let (a, b) = ("@str.lit."@ + dec(i), "@str.lit."@ + dec(j));
    law_naturals_are_numerals(i);
    law_naturals_are_numerals(j);
    assert(a.skip(9) =~= dec(i));
    assert(b.skip(9) =~= dec(j));
    assert(a[5] == 'l');
    let (x, y, z) = ("@str.int"@, "@str.float"@, "@str.bounds"@);
    assert(x.len() == 8 && y.len() == 10 && z.len() == 11);
    assert(x[5] == 'i' && y[5] == 'f' && z[5] == 'b');
}

/// The module holds each literal, where its operand points.
pub proof fn law_literals_are_held(m: ModuleV, i: usize)
    requires
        i < m.lits.len(),
        byte_len(m.lits[i as int].push('\0')) <= usize::MAX,
    ensures
        exists|name: Seq<char>|
            #![trigger defines(module_text(m), name, m.lits[i as int])]
            defines(module_text(m), name, m.lits[i as int]) && val_text(m, Val::Lit(i)) == pointer(
                name,
            ),
{
    let name = "@str.lit."@ + dec(i as nat);
    lemma_literal_defined(m, i as int);
    lemma_literal_pointer(m, i);
}

proof fn lemma_literal_pointer(m: ModuleV, i: usize)
    ensures
        val_text(m, Val::Lit(i)) == pointer("@str.lit."@ + dec(i as nat)),
{
    let name = "@str.lit."@ + dec(i as nat);
    lemma_pointer(name);
    reveal_strlit("getelementptr (i8, ptr @str.lit.");
    reveal_strlit("getelementptr (i8, ptr ");
    reveal_strlit("@str.lit.");
    let (a, b) = ("getelementptr (i8, ptr "@, "@str.lit."@);
    assert("getelementptr (i8, ptr @str.lit."@ =~= a + b);
    assert((a + b) + dec(i as nat) =~= a + name);
}

proof fn lemma_literal_defined(m: ModuleV, i: int)
    requires
        0 <= i < m.lits.len(),
        byte_len(m.lits[i].push('\0')) <= usize::MAX,
    ensures
        defines(module_text(m), "@str.lit."@ + dec(i as nat), m.lits[i]),
{
    let front = preamble() + all_libc_text(m) + externs_text(m.symbols, m.symbols.len())
        + fixed_text();
    let back = "\n"@ + fns_text(m, m.functions.len());
    let name = "@str.lit."@ + dec(i as nat);
    let s = m.lits[i];
    let tail = lemma_literal(m.lits, i, m.lits.len());
    let before = front + lits_text(m.lits, i as nat);
    lemma_in_between(
        front,
        lits_text(m.lits, i as nat),
        constant_text(name, s),
        tail,
        "\n"@,
        fns_text(m, m.functions.len()),
    );
    law_constants_hold_their_texts(before, name, s, tail + back);
}

proof fn lemma_in_between(
    front: Seq<char>,
    x: Seq<char>,
    y: Seq<char>,
    z: Seq<char>,
    a: Seq<char>,
    b: Seq<char>,
)
    ensures
        front + (x + y + z) + a + b == front + x + y + (z + (a + b)),
{
}

proof fn lemma_literal(lits: Seq<Seq<char>>, i: int, n: nat) -> (tail: Seq<char>)
    requires
        0 <= i < n <= lits.len(),
    ensures
        lits_text(lits, n) == lits_text(lits, i as nat) + constant_text(
            "@str.lit."@ + dec(i as nat),
            lits[i],
        ) + tail,
    decreases n,
{
    let m = (n - 1) as nat;
    if i == m {
        assert(lits_text(lits, n) =~= lits_text(lits, n) + Seq::empty());
        Seq::empty()
    } else {
        let tail = lemma_literal(lits, i, m);
        let last = constant_text("@str.lit."@ + dec(m), lits[m as int]);
        assert(lits_text(lits, n) =~= lits_text(lits, i as nat) + constant_text(
            "@str.lit."@ + dec(i as nat),
            lits[i],
        ) + (tail + last));
        tail + last
    }
}

// ----- printing ----------------------------------------------------------------------------------
/// The operand of a literal stands for its text, and the literals that were there
/// stay.
pub proof fn law_literals_are_kept(g: Gen, s: Seq<char>)
    requires
        g.lits.len() < usize::MAX,
    ensures
        literal(g, s).1 matches Val::Lit(i) && i < literal(g, s).0.lits.len() && literal(
            g,
            s,
        ).0.lits[i as int] == s,
        g.lits.is_prefix_of(literal(g, s).0.lits),
        literal(g, s).0.code == g.code,
        literal(g, s).0.lits.len() <= g.lits.len() + 1,
{
    lemma_index(g.lits, s, 0);
}

proof fn lemma_index(texts: Seq<Seq<char>>, s: Seq<char>, i: int)
    requires
        0 <= i,
    ensures
        text_index(texts, s, i) matches Some(k) ==> i <= k < texts.len() && texts[k] == s,
    decreases texts.len() - i,
{
    if i < texts.len() {
        lemma_index(texts, s, i + 1);
    }
}

/// Whether the last instructions hand C's `printf` the literal with that format
/// and a value.
pub open spec fn hands_over(g: Gen, format: Seq<char>, v: Val, t: Ty) -> bool {
    let n = g.code.len();
    &&& n >= 3
    &&& g.code[n - 1] == Ins::Call(Ty::I32, Callee::C(Libc::Printf), 2)
    &&& g.code[n - 2] == Ins::Arg(t, v)
    &&& g.code[n - 3] matches Ins::Arg(Ty::Ptr, Val::Lit(f)) && f < g.lits.len()
        && g.lits[f as int] == format
}

/// Whether a value is chosen between the literals `true` and `false` by another.
pub open spec fn spells_out(g: Gen, s: Val, v: Val) -> bool {
    s matches Val::Reg(k) && k < g.code.len() && (g.code[k as int] matches Ins::Select(
        c,
        Ty::Ptr,
        Val::Lit(a),
        Val::Lit(b),
    ) && c == v && a < g.lits.len() && b < g.lits.len() && g.lits[a as int] == "true"@
        && g.lits[b as int] == "false"@)
}

/// `print` shows its value and ends the line: an integer in decimal notation, a
/// floating-point number as C does, a text as it is, a truth value in words.
pub proof fn law_print_shows_the_value(
    g: Gen,
    v: Val,
    ty: Option<Type>,
    general: spec_fn(int) -> Seq<char>,
    x: int,
    text: Seq<char>,
)
    requires
        g.lits.len() + 3 < usize::MAX,
        g.code.len() + 4 < usize::MAX,
        low_print(g, v, ty) is Ok,
    ensures
        exists|format: Seq<char>, w: Val, t: Ty|
            #[trigger] hands_over(low_print(g, v, ty)->Ok_0, format, w, t) && match ty {
                Some(Type::Int) => w == v && t == Ty::I64 && shown(
                    general,
                    format,
                    seq![Given::Number(x)],
                ) == Some(dec_int(x) + "\n"@),
                Some(Type::Float) => w == v && t == Ty::F64 && shown(
                    general,
                    format,
                    seq![Given::Real(x)],
                ) == Some(general(x) + "\n"@),
                Some(Type::Str) => w == v && t == Ty::Ptr && shown(
                    general,
                    format,
                    seq![Given::Text(text)],
                ) == Some(text + "\n"@),
                _ => ty == Some(Type::Bool) && t == Ty::Ptr && spells_out(
                    low_print(g, v, ty)->Ok_0,
                    w,
                    v,
                ) && shown(general, format, seq![Given::Text(text)]) == Some(text + "\n"@),
            },
{
    reveal(low_print);
    reveal_strlit("%lld\n");
    reveal_strlit("%g\n");
    reveal_strlit("%s\n");
    reveal_strlit("%lld");
    reveal_strlit("%g");
    reveal_strlit("%s");
    reveal_strlit("\n");
    assert("%lld\n"@ =~= "%lld"@ + "\n"@);
    assert("%g\n"@ =~= "%g"@ + "\n"@);
    assert("%s\n"@ =~= "%s"@ + "\n"@);
    lemma_alone(general, Given::Number(x), "\n"@);
    lemma_alone(general, Given::Real(x), "\n"@);
    lemma_alone(general, Given::Text(text), "\n"@);
    match ty {
        Some(Type::Int) => {
            lemma_printf(g, "%lld\n"@, v, Ty::I64);
            assert(hands_over(low_print(g, v, ty)->Ok_0, "%lld\n"@, v, Ty::I64));
        },
        Some(Type::Float) => {
            lemma_printf(g, "%g\n"@, v, Ty::F64);
            assert(hands_over(low_print(g, v, ty)->Ok_0, "%g\n"@, v, Ty::F64));
        },
        Some(Type::Str) => {
            lemma_printf(g, "%s\n"@, v, Ty::Ptr);
            assert(hands_over(low_print(g, v, ty)->Ok_0, "%s\n"@, v, Ty::Ptr));
        },
        Some(Type::Bool) => {
            law_truth_is_spelled_out(g, v);
            let (g1, s) = bool_text(g, v);
            lemma_printf(g1, "%s\n"@, s, Ty::Ptr);
            let g2 = printf(g1, "%s\n"@, (s, Ty::Ptr));
            assert(spells_out(g2, s, v));
            assert(hands_over(low_print(g, v, ty)->Ok_0, "%s\n"@, s, Ty::Ptr));
        },
        _ => {},
    }
}

/// The text of a truth value is its word.
pub proof fn law_truth_is_spelled_out(g: Gen, v: Val)
    requires
        g.lits.len() + 1 < usize::MAX,
        g.code.len() < usize::MAX,
    ensures
        spells_out(bool_text(g, v).0, bool_text(g, v).1, v),
        bool_text(g, v).0.lits.len() <= g.lits.len() + 2,
        bool_text(g, v).0.code.len() == g.code.len() + 1,
        low_str(g, v, Some(Type::Bool)) is Ok,
        spells_out(
            low_str(g, v, Some(Type::Bool))->Ok_0.0,
            low_str(g, v, Some(Type::Bool))->Ok_0.1.0,
            v,
        ),
{
    reveal(bool_text);
    reveal(low_str);
    law_literals_are_kept(g, "true"@);
    let g1 = literal(g, "true"@).0;
    law_literals_are_kept(g1, "false"@);
}

proof fn lemma_printf(g: Gen, format: Seq<char>, v: Val, t: Ty)
    requires
        g.lits.len() < usize::MAX,
    ensures
        hands_over(printf(g, format, (v, t)), format, v, t),
        g.code.is_prefix_of(printf(g, format, (v, t)).code),
        g.lits.is_prefix_of(printf(g, format, (v, t)).lits),
{
    reveal(printf);
    reveal(call);
    law_literals_are_kept(g, format);
    let (g1, f) = literal(g, format);
    let args = seq![(f, Ty::Ptr), (v, t)];
    assert(args.drop_last() =~= seq![(f, Ty::Ptr)]);
    assert(args.drop_last().drop_last() =~= Seq::empty());
    reveal_with_fuel(pass, 3);
    assert(printf(g, format, (v, t)).code =~= g.code.push(Ins::Arg(Ty::Ptr, f)).push(
        Ins::Arg(t, v),
    ).push(Ins::Call(Ty::I32, Callee::C(Libc::Printf), 2)));
}

} // verus!
