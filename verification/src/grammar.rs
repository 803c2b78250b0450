//! The grammar of Xia, as functions from positions of a token stream to trees.
//!
//! ```text
//! program    := (extern_decl | function | struct_decl | enum_decl)*
//! extern_decl:= "extern" "fn" IDENT "(" [param_tys] ["," "..."] ")" ["->" type] NEWLINE
//! function   := "fn" ["(" IDENT ":" type ")"] IDENT "(" [params] ")" ["->" type] ":" block
//! struct_decl:= "struct" IDENT ":" NEWLINE INDENT (IDENT ":" type NEWLINE)+ DEDENT
//! enum_decl  := "enum" IDENT ":" NEWLINE INDENT (IDENT ["(" types ")"] NEWLINE)+ DEDENT
//! block      := NEWLINE INDENT statement+ DEDENT
//! statement  := let | assign | if | while | for | match | return | break | continue | expr NEWLINE
//! for        := "for" IDENT "in" ("range" "(" expr ["," expr] ")" | expr) ":" block
//! match      := "match" expr ":" NEWLINE INDENT arm+ DEDENT
//! arm        := IDENT ["(" names ")"] ":" (block | statement)
//! expr       := or_expr
//! or         := and ("or" and)*
//! and        := not ("and" not)*
//! not        := "not" not | comparison
//! comparison := additive (("=="|"!="|"<"|"<="|">"|">=") additive)?
//! additive   := term (("+"|"-") term)*
//! term       := unary (("*"|"/"|"%") unary)*
//! unary      := "-" unary | primary
//! primary    := atom ("[" expr "]" | "." IDENT ["(" args ")"])*
//! atom       := INT | FLOAT | STR | FSTR | "true" | "false" | IDENT ["(" args ")"]
//!             | "(" expr ")" | "[" [expr ("," expr)*] "]"
//! type       := "int" | "float" | "bool" | "str" | IDENT | "[" type "]"
//! ```
use vstd::prelude::*;
use crate::ast::{
    ArmV, BinOp, EnumV, ExprV, ExternV, FunctionV, KindV, ParamV, PatternV, Program, ProgramV,
    StmtV, StructV, Type, UnOp, VariantV,
};
use crate::diag::{Fault, Span};
use crate::lexer::{lexed, TokV, TokenV};
use crate::text::dec;

verus! {

/// A token stream and the names of the types it declares, in order.
#[verifier::ext_equal]
pub struct Input {
    pub toks: Seq<TokenV>,
    pub structs: Seq<Seq<char>>,
    pub enums: Seq<Seq<char>>,
}

/// A tree and the position behind it.
pub type Parsed<T> = Result<(T, int), Fault>;

// ----- names of declared types ------------------------------------------------------
/// The position of the first occurrence of `name` at or after `i`.
pub open spec fn find_name(names: Seq<Seq<char>>, name: Seq<char>, i: int) -> Option<int>
    decreases names.len() - i,
{
    if i < 0 || i >= names.len() {
        None
    } else if names[i] == name {
        Some(i)
    } else {
        find_name(names, name, i + 1)
    }
}

/// The distinct names that follow the keyword `kw` among the first `n` tokens
/// with a successor, in order.
pub open spec fn declared(toks: Seq<TokenV>, kw: TokV, n: int) -> Seq<Seq<char>>
    decreases n,
{
    if n <= 0 {
        Seq::empty()
    } else {
        let before = declared(toks, kw, n - 1);
        if toks[n - 1].kind == kw {
            match toks[n].kind {
                TokV::Ident(name) => if find_name(before, name, 0) is None {
                    before.push(name)
                } else {
                    before
                },
                _ => before,
            }
        } else {
            before
        }
    }
}

/// The input that a token stream makes.
pub open spec fn input_of(toks: Seq<TokenV>) -> Input {
    Input {
        toks,
        structs: declared(toks, TokV::Struct, toks.len() - 1),
        enums: declared(toks, TokV::Enum, toks.len() - 1),
    }
}

// ----- positions --------------------------------------------------------------------
impl Input {
    /// The token kind at a position; the end of the file past the end.
    pub open spec fn at(self, p: int) -> TokV {
        if 0 <= p < self.toks.len() {
            self.toks[p].kind
        } else {
            TokV::Eof
        }
    }

    /// The span of the token at a position.
    pub open spec fn span(self, p: int) -> Span {
        self.toks[p].span
    }

    /// The line of the token at a position.
    pub open spec fn line(self, p: int) -> usize {
        self.toks[p].span.line
    }

    /// A fault at a position.
    pub open spec fn fault(self, p: int, message: Seq<char>) -> Fault {
        Fault { span: self.span(p), message }
    }

    /// The position behind the token `k`, which must stand at `p`.
    pub open spec fn expect(self, p: int, k: TokV) -> Result<int, Fault> {
        if self.at(p) == k {
            Ok(p + 1)
        } else {
            Err(self.fault(p, "expected "@ + k.shown() + ", found "@ + self.at(p).shown()))
        }
    }

    /// The identifier at a position.
    pub open spec fn ident(self, p: int) -> Parsed<Seq<char>> {
        match self.at(p) {
            TokV::Ident(name) => Ok((name, p + 1)),
            other => Err(self.fault(p, "expected identifier, found "@ + other.shown())),
        }
    }

    /// A name followed by `k`.
    pub open spec fn ident_then(self, p: int, k: TokV) -> Parsed<Seq<char>> {
        match self.ident(p) {
            Ok((name, p1)) => match self.expect(p1, k) {
                Ok(p2) => Ok((name, p2)),
                Err(e) => Err(e),
            },
            Err(e) => Err(e),
        }
    }

    /// The end of a stretch: `k1` then `k2`.
    pub open spec fn expect2(self, p: int, k1: TokV, k2: TokV) -> Result<int, Fault> {
        match self.expect(p, k1) {
            Ok(p1) => self.expect(p1, k2),
            Err(e) => Err(e),
        }
    }
}

/// One more than the length of the longest interpolated literal.
pub open spec fn fstring_bound(toks: Seq<TokenV>) -> nat
    decreases toks.len(),
{
    if toks.len() == 0 {
        0
    } else {
        let before = fstring_bound(toks.drop_last());
        match toks.last().kind {
            TokV::FStr(s) => if s.len() + 1 > before {
                s.len() + 1
            } else {
                before
            },
            _ => before,
        }
    }
}

/// What is reported where a nested reading would not get shorter; it always
/// does.
pub open spec fn stuck(span: Span) -> Fault {
    Fault { span, message: Seq::empty() }
}

// ----- expressions ------------------------------------------------------------------
/// A tree fresh from the parser, without a type.
pub open spec fn node(kind: KindV, span: Span) -> ExprV {
    ExprV { kind, span, ty: None }
}


/// The left-associative operator of level `n` that a token stands for.
pub open spec fn chain_op(n: nat, k: TokV) -> Option<BinOp> {
    if n == 7 && k == TokV::Or {
        Some(BinOp::Or)
    } else if n == 6 && k == TokV::And {
        Some(BinOp::And)
    } else if n == 3 && k == TokV::Plus {
        Some(BinOp::Add)
    } else if n == 3 && k == TokV::Minus {
        Some(BinOp::Sub)
    } else if n == 2 && k == TokV::Star {
        Some(BinOp::Mul)
    } else if n == 2 && k == TokV::Slash {
        Some(BinOp::Div)
    } else if n == 2 && k == TokV::Percent {
        Some(BinOp::Rem)
    } else {
        None
    }
}

/// The comparison that a token stands for.
pub open spec fn compare_op(k: TokV) -> Option<BinOp> {
    match k {
        TokV::EqEq => Some(BinOp::Eq),
        TokV::NotEq => Some(BinOp::Ne),
        TokV::Lt => Some(BinOp::Lt),
        TokV::Le => Some(BinOp::Le),
        TokV::Gt => Some(BinOp::Gt),
        TokV::Ge => Some(BinOp::Ge),
        _ => None,
    }
}

pub open spec fn binary(a: ExprV, op: BinOp, b: ExprV, span: Span) -> ExprV {
    node(KindV::Binary(Box::new(a), op, Box::new(b)), span)
}

/// The expression of level `n` at position `p`.
pub open spec fn expr_at(c: Input, p: int, n: nat) -> Parsed<ExprV>
    decreases fstring_bound(c.toks), c.toks.len() - p, n + 10,
{
    if n == 0 {
        match atom_at(c, p) {
            Ok((e, p1)) => if p < p1 <= c.toks.len() {
                suffixes(c, p1, e)
            } else {
                Err(stuck(c.span(p)))
            },
            Err(e) => Err(e),
        }
    } else if n == 1 || n == 5 {
        if c.at(p) == (if n == 1 {
            TokV::Minus
        } else {
            TokV::Not
        }) {
            match expr_at(c, p + 1, n) {
                Ok((e, p1)) => Ok(
                    (
                        node(
                            KindV::Unary(
                                if n == 1 {
                                    UnOp::Neg
                                } else {
                                    UnOp::Not
                                },
                                Box::new(e),
                            ),
                            c.span(p),
                        ),
                        p1,
                    ),
                ),
                Err(e) => Err(e),
            }
        } else {
            expr_at(c, p, (n - 1) as nat)
        }
    } else if n == 4 {
        match expr_at(c, p, 3) {
            Ok((a, p1)) => match compare_op(c.at(p1)) {
                Some(op) => if p < p1 < c.toks.len() {
                    match expr_at(c, p1 + 1, 3) {
                        Ok((b, p2)) => Ok((binary(a, op, b, c.span(p1)), p2)),
                        Err(e) => Err(e),
                    }
                } else {
                    Err(stuck(c.span(p)))
                },
                None => Ok((a, p1)),
            },
            Err(e) => Err(e),
        }
    } else {
        match expr_at(c, p, (n - 1) as nat) {
            Ok((a, p1)) => if p < p1 <= c.toks.len() {
                chain(c, p1, n, a)
            } else {
                Err(stuck(c.span(p)))
            },
            Err(e) => Err(e),
        }
    }
}

/// The operators of level `n` that follow the operand `a`, applied from the
/// left.
pub open spec fn chain(c: Input, p: int, n: nat, a: ExprV) -> Parsed<ExprV>
    decreases fstring_bound(c.toks), c.toks.len() - p, n + 10,
{
    match chain_op(n, c.at(p)) {
        Some(op) => if n > 0 && p < c.toks.len() {
            match expr_at(c, p + 1, (n - 1) as nat) {
                Ok((b, p1)) => if p < p1 <= c.toks.len() {
                    chain(c, p1, n, binary(a, op, b, c.span(p)))
                } else {
                    Err(stuck(c.span(p)))
                },
                Err(e) => Err(e),
            }
        } else {
            Err(stuck(c.span(p)))
        },
        None => Ok((a, p)),
    }
}

/// The `[index]`, `.field` and `.method(args)` suffixes that follow `e`.
pub open spec fn suffixes(c: Input, p: int, e: ExprV) -> Parsed<ExprV>
    decreases fstring_bound(c.toks), c.toks.len() - p, 9nat,
{
    match c.at(p) {
        TokV::LBracket => match expr_at(c, p + 1, 7) {
            Ok((i, p1)) => match c.expect(p1, TokV::RBracket) {
                Ok(p2) => if p < p2 <= c.toks.len() {
                    suffixes(
                        c,
                        p2,
                        node(KindV::Index(Box::new(e), Box::new(i)), c.span(p)),
                    )
                } else {
                    Err(stuck(c.span(p)))
                },
                Err(e) => Err(e),
            },
            Err(e) => Err(e),
        },
        TokV::Dot => match c.ident(p + 1) {
            Ok((name, p1)) => if c.at(p1) == TokV::LParen {
                match items(c, p1 + 1, TokV::RParen, Seq::empty()) {
                    Ok((args, p2)) => if p < p2 <= c.toks.len() {
                        suffixes(
                            c,
                            p2,
                            node(KindV::MethodCall(Box::new(e), name, args), c.span(p)),
                        )
                    } else {
                        Err(stuck(c.span(p)))
                    },
                    Err(e) => Err(e),
                }
            } else {
                if p1 <= c.toks.len() {
                    suffixes(c, p1, node(KindV::Field(Box::new(e), name), c.span(p)))
                } else {
                    Err(stuck(c.span(p)))
                }
            },
            Err(e) => Err(e),
        },
        _ => Ok((e, p)),
    }
}

/// Expressions separated by commas up to the token `close`; a comma may stand
/// before it.
pub open spec fn items(c: Input, p: int, close: TokV, done: Seq<ExprV>) -> Parsed<Seq<ExprV>>
    decreases fstring_bound(c.toks), c.toks.len() - p, 20nat,
{
    if c.at(p) == close {
        Ok((done, p + 1))
    } else {
        match expr_at(c, p, 7) {
            Ok((e, p1)) => if c.at(p1) == TokV::Comma {
                if p < p1 < c.toks.len() {
                    items(c, p1 + 1, close, done.push(e))
                } else {
                    Err(stuck(c.span(p)))
                }
            } else {
                match c.expect(p1, close) {
                    Ok(p2) => Ok((done.push(e), p2)),
                    Err(e) => Err(e),
                }
            },
            Err(e) => Err(e),
        }
    }
}

/// The atom at position `p`.
pub open spec fn atom_at(c: Input, p: int) -> Parsed<ExprV>
    decreases fstring_bound(c.toks), c.toks.len() - p, 8nat,
{
    let span = c.span(p);
    match c.at(p) {
        TokV::Int(n) => Ok((node(KindV::Int(n), span), p + 1)),
        TokV::Float(s) => Ok((node(KindV::Float(s), span), p + 1)),
        TokV::Str(s) => Ok((node(KindV::Str(s), span), p + 1)),
        TokV::FStr(s) => if s.len() < fstring_bound(c.toks) {
            match pieces(s, 0, Seq::empty(), Seq::empty(), span) {
                Ok(parts) => Ok((joined(parts, parts.len(), span), p + 1)),
                Err(e) => Err(e),
            }
        } else {
            Err(stuck(span))
        },
        TokV::True => Ok((node(KindV::Bool(true), span), p + 1)),
        TokV::False => Ok((node(KindV::Bool(false), span), p + 1)),
        TokV::LParen => match expr_at(c, p + 1, 7) {
            Ok((e, p1)) => match c.expect(p1, TokV::RParen) {
                Ok(p2) => Ok((e, p2)),
                Err(e) => Err(e),
            },
            Err(e) => Err(e),
        },
        TokV::LBracket => match items(c, p + 1, TokV::RBracket, Seq::empty()) {
            Ok((es, p1)) => Ok((node(KindV::ArrayLit(es), span), p1)),
            Err(e) => Err(e),
        },
        TokV::Ident(name) => if c.at(p + 1) == TokV::LParen {
            match items(c, p + 2, TokV::RParen, Seq::empty()) {
                Ok((args, p1)) => Ok((node(KindV::Call(name, args), span), p1)),
                Err(e) => Err(e),
            }
        } else {
            Ok((node(KindV::Var(name), span), p + 1))
        },
        other => Err(c.fault(p, "unexpected "@ + other.shown() + " in expression"@)),
    }
}

// ----- interpolated strings ---------------------------------------------------------
/// Whether Unicode counts a character as white space.
pub open spec fn is_space(c: char) -> bool {
    let n = c as u32;
    0x09 <= n <= 0x0d || n == 0x20 || n == 0x85 || n == 0xa0 || n == 0x1680 || 0x2000 <= n <= 0x200a
        || n == 0x2028 || n == 0x2029 || n == 0x202f || n == 0x205f || n == 0x3000
}

/// Whether a text holds nothing but white space.
pub open spec fn all_space(s: Seq<char>) -> bool {
    forall|i: int| 0 <= i < s.len() ==> is_space(#[trigger] s[i])
}

/// The first closing brace at or after `i`.
pub open spec fn brace_end(s: Seq<char>, i: int) -> Option<int>
    decreases s.len() - i,
{
    if i < 0 || i >= s.len() {
        None
    } else if s[i] == '}' {
        Some(i)
    } else {
        brace_end(s, i + 1)
    }
}

/// A fault inside an interpolated string, reported at the whole literal.
pub open spec fn in_fstring(span: Span, message: Seq<char>) -> Fault {
    Fault { span, message: "in f-string: "@ + message }
}

/// The parts so far with the literal text before the next part, if any.
pub open spec fn flushed(parts: Seq<ExprV>, lit: Seq<char>, span: Span) -> Seq<ExprV> {
    if lit.len() > 0 {
        parts.push(node(KindV::Str(lit), span))
    } else {
        parts
    }
}

/// The parts of the interpolated text `s` from position `i` on: literal text
/// (`{{` and `}}` stand for braces), and `str(e)` for each `{e}`, where `e` is
/// read as a source text of its own and reported at the whole literal.
pub open spec fn pieces(
    s: Seq<char>,
    i: int,
    lit: Seq<char>,
    parts: Seq<ExprV>,
    span: Span,
) -> Result<Seq<ExprV>, Fault>
    decreases s.len(), s.len() - i, 30nat,
{
    if i < 0 || i >= s.len() {
        if lit.len() > 0 || parts.len() == 0 {
            Ok(parts.push(node(KindV::Str(lit), span)))
        } else {
            Ok(parts)
        }
    } else if i + 1 < s.len() && s[i] == '{' && s[i + 1] == '{' {
        pieces(s, i + 2, lit.push('{'), parts, span)
    } else if i + 1 < s.len() && s[i] == '}' && s[i + 1] == '}' {
        pieces(s, i + 2, lit.push('}'), parts, span)
    } else if s[i] == '{' {
        match brace_end(s, i + 1) {
            None => Err(in_fstring(span, "unterminated `{`"@)),
            Some(e) => {
                let inner = s.subrange(i + 1, e);
                if all_space(inner) {
                    Err(in_fstring(span, "empty `{}` interpolation"@))
                } else if !(i < e < s.len()) {
                    Err(stuck(span))
                } else {
                    match inner_expr(inner, span) {
                        Err(f) => Err(f),
                        Ok(value) => pieces(
                            s,
                            e + 1,
                            Seq::empty(),
                            flushed(parts, lit, span).push(
                                node(KindV::Call("str"@, seq![value]), span),
                            ),
                            span,
                        ),
                    }
                }
            },
        }
    } else if s[i] == '}' {
        Err(in_fstring(span, "unmatched `}` (use `}}` for a literal)"@))
    } else {
        pieces(s, i + 1, lit.push(s[i]), parts, span)
    }
}

/// The expression that the text between two braces spells, read as a source
/// text of its own.
pub open spec fn inner_expr(inner: Seq<char>, span: Span) -> Result<ExprV, Fault>
    decreases inner.len() + 1, 0nat, 0nat,
{
    match lexed(inner) {
        Err(f) => Err(in_fstring(span, f.message)),
        Ok(toks) => {
            let sub = input_of(toks);
            if fstring_bound(sub.toks) > inner.len() {
                Err(stuck(span))
            } else {
                match expr_at(sub, 0, 7) {
                    Err(f) => Err(in_fstring(span, f.message)),
                    Ok((value, p)) => if sub.at(p) == TokV::Newline || sub.at(p) == TokV::Eof {
                        Ok(respanned(value, span))
                    } else {
                        Err(
                            in_fstring(
                                span,
                                "unexpected "@ + sub.at(p).shown() + " after expression"@,
                            ),
                        )
                    },
                }
            }
        },
    }
}

/// The first `n` parts concatenated from the left.
pub open spec fn joined(parts: Seq<ExprV>, n: nat, span: Span) -> ExprV
    decreases n,
{
    if n <= 1 {
        parts[0]
    } else {
        binary(joined(parts, (n - 1) as nat, span), BinOp::Add, parts[n - 1], span)
    }
}

/// A tree with all its spans replaced.
pub open spec fn respanned(e: ExprV, span: Span) -> ExprV
    decreases e,
{
    ExprV {
        kind: match e.kind {
            KindV::Unary(op, a) => KindV::Unary(op, Box::new(respanned(*a, span))),
            KindV::Binary(a, op, b) => KindV::Binary(
                Box::new(respanned(*a, span)),
                op,
                Box::new(respanned(*b, span)),
            ),
            KindV::Call(name, args) => KindV::Call(name, all_respanned(args, span)),
            KindV::MethodCall(r, name, args) => KindV::MethodCall(
                Box::new(respanned(*r, span)),
                name,
                all_respanned(args, span),
            ),
            KindV::ArrayLit(es) => KindV::ArrayLit(all_respanned(es, span)),
            KindV::Index(a, b) => KindV::Index(
                Box::new(respanned(*a, span)),
                Box::new(respanned(*b, span)),
            ),
            KindV::Field(a, name) => KindV::Field(Box::new(respanned(*a, span)), name),
            other => other,
        },
        span,
        ty: e.ty,
    }
}

pub open spec fn all_respanned(s: Seq<ExprV>, span: Span) -> Seq<ExprV>
    decreases s,
{
    Seq::new(
        s.len(),
        |i: int|
            if 0 <= i < s.len() {
                respanned(s[i], span)
            } else {
                arbitrary()
            },
    )
}

// ----- types ------------------------------------------------------------------------
/// The scalar type that a name stands for.
pub open spec fn scalar_type(name: Seq<char>) -> Option<Type> {
    if name == "int"@ {
        Some(Type::Int)
    } else if name == "float"@ {
        Some(Type::Float)
    } else if name == "bool"@ {
        Some(Type::Bool)
    } else if name == "str"@ {
        Some(Type::Str)
    } else {
        None
    }
}

/// The type that a name stands for: a scalar, else a struct, else an enum.
pub open spec fn named_type(c: Input, name: Seq<char>) -> Option<Type> {
    match scalar_type(name) {
        Some(t) => Some(t),
        None => match find_name(c.structs, name, 0) {
            Some(i) => Some(Type::Struct(i as u32)),
            None => match find_name(c.enums, name, 0) {
                Some(i) => Some(Type::Enum(i as u32)),
                None => None,
            },
        },
    }
}

/// The array type over `elem`, where its dimensions can still be counted.
pub open spec fn checked_array(elem: Type) -> Option<Type> {
    if elem.nestable() {
        Type::arrays_of(elem)
    } else {
        None
    }
}

/// The type at position `p`.
pub open spec fn type_at(c: Input, p: int) -> Parsed<Type>
    decreases c.toks.len() - p,
{
    if c.at(p) == TokV::LBracket {
        match type_at(c, p + 1) {
            Ok((elem, p1)) => match c.expect(p1, TokV::RBracket) {
                Ok(p2) => match checked_array(elem) {
                    Some(t) => Ok((t, p2)),
                    None => Err(
                        c.fault(p2, "`["@ + elem.shown() + "]` is not a valid array type"@),
                    ),
                },
                Err(e) => Err(e),
            },
            Err(e) => Err(e),
        }
    } else {
        match c.ident(p) {
            Ok((name, p1)) => match named_type(c, name) {
                Some(t) => Ok((t, p1)),
                None => Err(c.fault(p1, "unknown type `"@ + name + "`"@)),
            },
            Err(e) => Err(e),
        }
    }
}

/// The result type of a signature: the type behind an arrow, or unit.
pub open spec fn return_type_at(c: Input, p: int) -> Parsed<Type> {
    if c.at(p) == TokV::Arrow {
        type_at(c, p + 1)
    } else {
        Ok((Type::Unit, p))
    }
}

// ----- statements -------------------------------------------------------------------
/// A block: a newline, an indent, statements, a dedent.
pub open spec fn block_at(c: Input, p: int) -> Parsed<Seq<StmtV>>
    decreases c.toks.len() - p, 1nat,
{
    match c.expect2(p, TokV::Newline, TokV::Indent) {
        Ok(p1) => if p < p1 <= c.toks.len() {
            stmts_at(c, p1, Seq::empty())
        } else {
            Err(stuck(c.span(p)))
        },
        Err(e) => Err(e),
    }
}

/// The statements of a block from position `p` on, up to its dedent.
pub open spec fn stmts_at(c: Input, p: int, done: Seq<StmtV>) -> Parsed<Seq<StmtV>>
    decreases c.toks.len() - p, 4nat,
{
    if c.at(p) == TokV::Dedent {
        if done.len() == 0 {
            Err(c.fault(p + 1, "block cannot be empty"@))
        } else {
            Ok((done, p + 1))
        }
    } else if c.at(p) == TokV::Eof {
        Err(c.fault(p, "unexpected end of file inside block"@))
    } else {
        match stmt_at(c, p) {
            Ok((s, p1)) => if p < p1 <= c.toks.len() {
                stmts_at(c, p1, done.push(s))
            } else {
                Err(stuck(c.span(p)))
            },
            Err(e) => Err(e),
        }
    }
}

/// The expression at `p`, then the token `k`.
pub open spec fn expr_then(c: Input, p: int, k: TokV) -> Parsed<ExprV> {
    match expr_at(c, p, 7) {
        Ok((e, p1)) => match c.expect(p1, k) {
            Ok(p2) => Ok((e, p2)),
            Err(e) => Err(e),
        },
        Err(e) => Err(e),
    }
}

/// A binding: a name, an optional annotation, a value.
pub open spec fn let_at(c: Input, p: int) -> Parsed<StmtV> {
    match c.ident(p + 1) {
        Ok((name, p1)) => {
            let annotation = if c.at(p1) == TokV::Colon {
                match type_at(c, p1 + 1) {
                    Ok((t, p2)) => Ok((Some(t), p2)),
                    Err(e) => Err(e),
                }
            } else {
                Ok((None, p1))
            };
            match annotation {
                Ok((ty, p2)) => match c.expect(p2, TokV::Assign) {
                    Ok(p3) => match expr_then(c, p3, TokV::Newline) {
                        Ok((value, p4)) => Ok(
                            (StmtV::Let { name, ty, value, line: c.line(p) }, p4),
                        ),
                        Err(e) => Err(e),
                    },
                    Err(e) => Err(e),
                },
                Err(e) => Err(e),
            }
        },
        Err(e) => Err(e),
    }
}

/// A return, with or without a value.
pub open spec fn return_at(c: Input, p: int) -> Parsed<StmtV> {
    if c.at(p + 1) == TokV::Newline {
        Ok((StmtV::Return { value: None, line: c.line(p) }, p + 2))
    } else {
        match expr_then(c, p + 1, TokV::Newline) {
            Ok((e, p1)) => Ok((StmtV::Return { value: Some(e), line: c.line(p) }, p1)),
            Err(e) => Err(e),
        }
    }
}

/// An assignment or a bare expression: the expression comes first, then a
/// trailing `=` decides — the target must be a name, an index or a field.
pub open spec fn simple_at(c: Input, p: int) -> Parsed<StmtV> {
    match expr_at(c, p, 7) {
        Ok((e, p1)) => if c.at(p1) == TokV::Assign {
            match expr_then(c, p1 + 1, TokV::Newline) {
                Ok((value, p2)) => {
                    let line = c.line(p);
                    match e.kind {
                        KindV::Var(name) => Ok((StmtV::Assign { name, value, line }, p2)),
                        KindV::Index(target, index) => Ok(
                            (
                                StmtV::IndexAssign {
                                    target: *target,
                                    index: *index,
                                    value,
                                    line,
                                },
                                p2,
                            ),
                        ),
                        KindV::Field(target, field) => Ok(
                            (StmtV::FieldAssign { target: *target, field, value, line }, p2),
                        ),
                        _ => Err(Fault { span: e.span, message: "invalid assignment target"@ }),
                    }
                },
                Err(e) => Err(e),
            }
        } else {
            match c.expect(p1, TokV::Newline) {
                Ok(p2) => Ok((StmtV::Expr(e), p2)),
                Err(e) => Err(e),
            }
        },
        Err(e) => Err(e),
    }
}

/// The statement at position `p`.
pub open spec fn stmt_at(c: Input, p: int) -> Parsed<StmtV>
    decreases c.toks.len() - p, 3nat,
{
    match c.at(p) {
        TokV::Let => let_at(c, p),
        TokV::Return => return_at(c, p),
        TokV::Break => match c.expect(p + 1, TokV::Newline) {
            Ok(p1) => Ok((StmtV::Break { line: c.line(p) }, p1)),
            Err(e) => Err(e),
        },
        TokV::Continue => match c.expect(p + 1, TokV::Newline) {
            Ok(p1) => Ok((StmtV::Continue { line: c.line(p) }, p1)),
            Err(e) => Err(e),
        },
        TokV::If => if_at(c, p),
        TokV::For => for_at(c, p),
        TokV::Match => match_at(c, p),
        TokV::While => match expr_then(c, p + 1, TokV::Colon) {
            Ok((cond, p1)) => if p < p1 <= c.toks.len() {
                match block_at(c, p1) {
                    Ok((body, p2)) => Ok((StmtV::While { cond, body }, p2)),
                    Err(e) => Err(e),
                }
            } else {
                Err(stuck(c.span(p)))
            },
            Err(e) => Err(e),
        },
        TokV::Ident(_) => simple_at(c, p),
        other => Err(c.fault(p, "unexpected "@ + other.shown() + " at start of statement"@)),
    }
}

/// A conditional whose `if` is wanted at `p`.
pub open spec fn if_stmt(c: Input, p: int) -> Parsed<StmtV> {
    match c.expect(p, TokV::If) {
        Ok(_) => if_at(c, p),
        Err(e) => Err(e),
    }
}

/// A conditional whose keyword (`if` or `elif`) stands at `p`; `elif` chains
/// desugar to nested if/else.
pub open spec fn if_at(c: Input, p: int) -> Parsed<StmtV>
    decreases c.toks.len() - p, 2nat,
{
    match expr_then(c, p + 1, TokV::Colon) {
        Ok((cond, p1)) => if p < p1 <= c.toks.len() {
            match block_at(c, p1) {
                Ok((then_block, p2)) => if p < p2 < c.toks.len() {
                    match c.at(p2) {
                        TokV::Elif => match if_at(c, p2) {
                            Ok((s, p3)) => Ok(
                                (
                                    StmtV::If { cond, then_block, else_block: Some(seq![s]) },
                                    p3,
                                ),
                            ),
                            Err(e) => Err(e),
                        },
                        TokV::Else => match c.expect(p2 + 1, TokV::Colon) {
                            Ok(p3) => if p < p3 <= c.toks.len() {
                                match block_at(c, p3) {
                                    Ok((b, p4)) => Ok(
                                        (
                                            StmtV::If { cond, then_block, else_block: Some(b) },
                                            p4,
                                        ),
                                    ),
                                    Err(e) => Err(e),
                                }
                            } else {
                                Err(stuck(c.span(p)))
                            },
                            Err(e) => Err(e),
                        },
                        _ => Ok((StmtV::If { cond, then_block, else_block: None }, p2)),
                    }
                } else {
                    Err(stuck(c.span(p)))
                },
                Err(e) => Err(e),
            }
        } else {
            Err(stuck(c.span(p)))
        },
        Err(e) => Err(e),
    }
}

/// The loop that a variable, what it runs over and a body make: `range` calls
/// count, anything else is iterated.
pub open spec fn for_stmt(
    var: Seq<char>,
    iterable: ExprV,
    body: Seq<StmtV>,
    line: usize,
) -> Result<StmtV, Fault> {
    let each = StmtV::ForEach { var, iterable, body, line };
    match iterable.kind {
        KindV::Call(name, args) => if name == "range"@ {
            if args.len() == 1 {
                Ok(
                    StmtV::For {
                        var,
                        start: node(KindV::Int(0), iterable.span),
                        end: args[0],
                        body,
                        line,
                    },
                )
            } else if args.len() == 2 {
                Ok(StmtV::For { var, start: args[0], end: args[1], body, line })
            } else {
                Err(
                    Fault {
                        span: iterable.span,
                        message: "range takes 1 or 2 arguments, got "@ + dec(args.len()),
                    },
                )
            }
        } else {
            Ok(each)
        },
        _ => Ok(each),
    }
}

/// `for i in range(end):`, `for i in range(start, end):`, or
/// `for x in <array expr>:`. `range` is loop syntax, not a function —
/// it never escapes a `for`.
pub open spec fn for_at(c: Input, p: int) -> Parsed<StmtV>
    decreases c.toks.len() - p, 2nat,
{
    match c.ident_then(p + 1, TokV::In) {
        Ok((var, p1)) => match expr_then(c, p1, TokV::Colon) {
            Ok((iterable, p2)) => if p < p2 <= c.toks.len() {
                match block_at(c, p2) {
                    Ok((body, p3)) => match for_stmt(var, iterable, body, c.line(p)) {
                        Ok(s) => Ok((s, p3)),
                        Err(e) => Err(e),
                    },
                    Err(e) => Err(e),
                }
            } else {
                Err(stuck(c.span(p)))
            },
            Err(e) => Err(e),
        },
        Err(e) => Err(e),
    }
}

/// Names separated by commas up to a closing parenthesis.
pub open spec fn names_at(c: Input, p: int, done: Seq<Seq<char>>) -> Parsed<Seq<Seq<char>>>
    decreases c.toks.len() - p,
{
    if c.at(p) == TokV::RParen {
        Ok((done, p + 1))
    } else {
        match c.ident(p) {
            Ok((name, p1)) => if c.at(p1) == TokV::Comma {
                names_at(c, p1 + 1, done.push(name))
            } else {
                match c.expect(p1, TokV::RParen) {
                    Ok(p2) => Ok((done.push(name), p2)),
                    Err(e) => Err(e),
                }
            },
            Err(e) => Err(e),
        }
    }
}

/// A pattern: `_`, or a variant with the names its payload is bound to.
pub open spec fn pattern_at(c: Input, p: int) -> Parsed<PatternV> {
    match c.ident(p) {
        Ok((name, p1)) => if name == "_"@ {
            Ok((PatternV::Wildcard, p1))
        } else if c.at(p1) == TokV::LParen {
            match names_at(c, p1 + 1, Seq::empty()) {
                Ok((bindings, p2)) => Ok(
                    (PatternV::Variant { name, bindings, types: Seq::empty() }, p2),
                ),
                Err(e) => Err(e),
            }
        } else {
            Ok((PatternV::Variant { name, bindings: Seq::empty(), types: Seq::empty() }, p1))
        },
        Err(e) => Err(e),
    }
}

/// The arms of a match from position `p` on, up to its dedent. The body of an
/// arm is a block, or one statement on the arm's own line.
pub open spec fn arms_at(c: Input, p: int, done: Seq<ArmV>) -> Parsed<Seq<ArmV>>
    decreases c.toks.len() - p, 4nat,
{
    if c.at(p) == TokV::Dedent {
        if done.len() == 0 {
            Err(c.fault(p + 1, "match must have at least one arm"@))
        } else {
            Ok((done, p + 1))
        }
    } else {
        match pattern_at(c, p) {
            Ok((pattern, p1)) => match c.expect(p1, TokV::Colon) {
                Ok(p2) => if p < p2 <= c.toks.len() {
                    match arm_body_at(c, p2) {
                        Ok((body, p3)) => if p < p3 <= c.toks.len() {
                            arms_at(c, p3, done.push(ArmV { pattern, body }))
                        } else {
                            Err(stuck(c.span(p)))
                        },
                        Err(e) => Err(e),
                    }
                } else {
                    Err(stuck(c.span(p)))
                },
                Err(e) => Err(e),
            },
            Err(e) => Err(e),
        }
    }
}

/// The body of an arm.
pub open spec fn arm_body_at(c: Input, p: int) -> Parsed<Seq<StmtV>>
    decreases c.toks.len() - p, 5nat,
{
    if c.at(p) == TokV::Newline {
        block_at(c, p)
    } else {
        match stmt_at(c, p) {
            Ok((s, p1)) => Ok((seq![s], p1)),
            Err(e) => Err(e),
        }
    }
}

/// `match scrutinee:` and its indented arms.
pub open spec fn match_at(c: Input, p: int) -> Parsed<StmtV>
    decreases c.toks.len() - p, 2nat,
{
    match expr_then(c, p + 1, TokV::Colon) {
        Ok((scrutinee, p1)) => match c.expect2(p1, TokV::Newline, TokV::Indent) {
            Ok(p2) => if p < p2 <= c.toks.len() {
                match arms_at(c, p2, Seq::empty()) {
                    Ok((arms, p3)) => Ok((StmtV::Match { scrutinee, arms, line: c.line(p) }, p3)),
                    Err(e) => Err(e),
                }
            } else {
                Err(stuck(c.span(p)))
            },
            Err(e) => Err(e),
        },
        Err(e) => Err(e),
    }
}

// ----- declarations -----------------------------------------------------------------
/// Whether one of some parameters has that name.
pub open spec fn has_param(params: Seq<ParamV>, name: Seq<char>) -> bool {
    exists|i: int| 0 <= i < params.len() && (#[trigger] params[i]).name == name
}

/// `name: type`
pub open spec fn param_at(c: Input, p: int) -> Parsed<ParamV> {
    match c.ident_then(p, TokV::Colon) {
        Ok((name, p1)) => match type_at(c, p1) {
            Ok((ty, p2)) => Ok((ParamV { name, ty }, p2)),
            Err(e) => Err(e),
        },
        Err(e) => Err(e),
    }
}

/// Parameters separated by commas up to a closing parenthesis.
pub open spec fn params_at(c: Input, p: int, done: Seq<ParamV>) -> Parsed<Seq<ParamV>>
    decreases c.toks.len() - p,
{
    if c.at(p) == TokV::RParen {
        Ok((done, p + 1))
    } else {
        match param_at(c, p) {
            Ok((param, p1)) => if c.at(p1) == TokV::Comma {
                if p < p1 < c.toks.len() {
                    params_at(c, p1 + 1, done.push(param))
                } else {
                    Err(stuck(c.span(p)))
                }
            } else {
                match c.expect(p1, TokV::RParen) {
                    Ok(p2) => Ok((done.push(param), p2)),
                    Err(e) => Err(e),
                }
            },
            Err(e) => Err(e),
        }
    }
}

/// A function or a method; a method names its receiver before its own name.
pub open spec fn function_at(c: Input, p: int) -> Parsed<FunctionV> {
    let recv = if c.at(p + 1) == TokV::LParen {
        match param_at(c, p + 2) {
            Ok((r, p1)) => match c.expect(p1, TokV::RParen) {
                Ok(p2) => Ok((Some(r), p2)),
                Err(e) => Err(e),
            },
            Err(e) => Err(e),
        }
    } else {
        Ok((None, p + 1))
    };
    match recv {
        Ok((recv, p1)) => match c.ident_then(p1, TokV::LParen) {
            Ok((name, p2)) => match params_at(c, p2, Seq::empty()) {
                Ok((params, p3)) => match return_type_at(c, p3) {
                    Ok((ret, p4)) => match c.expect(p4, TokV::Colon) {
                        Ok(p5) => match block_at(c, p5) {
                            Ok((body, p6)) => Ok(
                                (
                                    FunctionV { name, recv, params, ret, body, line: c.line(p) },
                                    p6,
                                ),
                            ),
                            Err(e) => Err(e),
                        },
                        Err(e) => Err(e),
                    },
                    Err(e) => Err(e),
                },
                Err(e) => Err(e),
            },
            Err(e) => Err(e),
        },
        Err(e) => Err(e),
    }
}

/// One parameter of an `extern` declaration: `name: type`, or a bare scalar
/// type.
pub open spec fn extern_param_at(c: Input, p: int) -> Parsed<Type> {
    match c.ident(p) {
        Ok((first, p1)) => if c.at(p1) == TokV::Colon {
            type_at(c, p1 + 1)
        } else {
            match scalar_type(first) {
                Some(t) => Ok((t, p1)),
                None => Err(c.fault(p1, "unknown type `"@ + first + "`"@)),
            }
        },
        Err(e) => Err(e),
    }
}

/// The parameters of an `extern` declaration and whether `...` ends them.
pub open spec fn extern_params_at(c: Input, p: int, done: Seq<Type>) -> Parsed<(Seq<Type>, bool)>
    decreases c.toks.len() - p,
{
    if c.at(p) == TokV::RParen {
        Ok(((done, false), p + 1))
    } else if c.at(p) == TokV::Ellipsis {
        match c.expect(p + 1, TokV::RParen) {
            Ok(p1) => Ok(((done, true), p1)),
            Err(e) => Err(e),
        }
    } else {
        match extern_param_at(c, p) {
            Ok((ty, p1)) => if c.at(p1) == TokV::Comma {
                if p < p1 < c.toks.len() {
                    extern_params_at(c, p1 + 1, done.push(ty))
                } else {
                    Err(stuck(c.span(p)))
                }
            } else {
                match c.expect(p1, TokV::RParen) {
                    Ok(p2) => Ok(((done.push(ty), false), p2)),
                    Err(e) => Err(e),
                }
            },
            Err(e) => Err(e),
        }
    }
}

/// `extern fn printf(str, ...) -> int`; parameter names are allowed but
/// optional: `extern fn puts(s: str) -> int`.
pub open spec fn extern_at(c: Input, p: int) -> Parsed<ExternV> {
    match c.expect(p + 1, TokV::Fn) {
        Ok(p1) => match c.ident_then(p1, TokV::LParen) {
            Ok((name, p2)) => match extern_params_at(c, p2, Seq::empty()) {
                Ok(((params, varargs), p3)) => match return_type_at(c, p3) {
                    Ok((ret, p4)) => match c.expect(p4, TokV::Newline) {
                        Ok(p5) => Ok(
                            (ExternV { name, params, varargs, ret, line: c.line(p) }, p5),
                        ),
                        Err(e) => Err(e),
                    },
                    Err(e) => Err(e),
                },
                Err(e) => Err(e),
            },
            Err(e) => Err(e),
        },
        Err(e) => Err(e),
    }
}

/// A keyword, a name, and the opening of an indented body.
pub open spec fn header_at(c: Input, p: int) -> Parsed<Seq<char>> {
    match c.ident_then(p + 1, TokV::Colon) {
        Ok((name, p1)) => match c.expect2(p1, TokV::Newline, TokV::Indent) {
            Ok(p2) => Ok((name, p2)),
            Err(e) => Err(e),
        },
        Err(e) => Err(e),
    }
}

/// The fields of a struct from position `p` on, up to its dedent.
pub open spec fn fields_at(c: Input, p: int, name: Seq<char>, done: Seq<ParamV>) -> Parsed<
    Seq<ParamV>,
>
    decreases c.toks.len() - p,
{
    if c.at(p) == TokV::Dedent {
        if done.len() == 0 {
            Err(c.fault(p + 1, "struct `"@ + name + "` must have at least one field"@))
        } else {
            Ok((done, p + 1))
        }
    } else {
        match c.ident(p) {
            Ok((field, p1)) => if has_param(done, field) {
                Err(c.fault(p1, "duplicate field `"@ + field + "` in `"@ + name + "`"@))
            } else {
                match c.expect(p1, TokV::Colon) {
                    Ok(p2) => match type_at(c, p2) {
                        Ok((ty, p3)) => match c.expect(p3, TokV::Newline) {
                            Ok(p4) => if p < p4 <= c.toks.len() {
                                fields_at(c, p4, name, done.push(ParamV { name: field, ty }))
                            } else {
                                Err(stuck(c.span(p)))
                            },
                            Err(e) => Err(e),
                        },
                        Err(e) => Err(e),
                    },
                    Err(e) => Err(e),
                }
            },
            Err(e) => Err(e),
        }
    }
}

/// `struct Name:` NEWLINE INDENT (`field: type` NEWLINE)+ DEDENT
pub open spec fn struct_at(c: Input, p: int) -> Parsed<StructV> {
    match header_at(c, p) {
        Ok((name, p1)) => match fields_at(c, p1, name, Seq::empty()) {
            Ok((fields, p2)) => Ok((StructV { name, fields, line: c.line(p) }, p2)),
            Err(e) => Err(e),
        },
        Err(e) => Err(e),
    }
}

/// Types separated by commas up to a closing parenthesis.
pub open spec fn types_at(c: Input, p: int, done: Seq<Type>) -> Parsed<Seq<Type>>
    decreases c.toks.len() - p,
{
    if c.at(p) == TokV::RParen {
        Ok((done, p + 1))
    } else {
        match type_at(c, p) {
            Ok((ty, p1)) => if c.at(p1) == TokV::Comma {
                if p < p1 < c.toks.len() {
                    types_at(c, p1 + 1, done.push(ty))
                } else {
                    Err(stuck(c.span(p)))
                }
            } else {
                match c.expect(p1, TokV::RParen) {
                    Ok(p2) => Ok((done.push(ty), p2)),
                    Err(e) => Err(e),
                }
            },
            Err(e) => Err(e),
        }
    }
}

/// A variant: a bare name, or a name and the types of its payload.
pub open spec fn variant_at(c: Input, p: int) -> Parsed<VariantV> {
    match c.ident(p) {
        Ok((name, p1)) => {
            let payload = if c.at(p1) == TokV::LParen {
                types_at(c, p1 + 1, Seq::empty())
            } else {
                Ok((Seq::empty(), p1))
            };
            match payload {
                Ok((fields, p2)) => match c.expect(p2, TokV::Newline) {
                    Ok(p3) => Ok((VariantV { name, fields }, p3)),
                    Err(e) => Err(e),
                },
                Err(e) => Err(e),
            }
        },
        Err(e) => Err(e),
    }
}

/// The variants of an enum from position `p` on, up to its dedent.
pub open spec fn variants_at(c: Input, p: int, name: Seq<char>, done: Seq<VariantV>) -> Parsed<
    Seq<VariantV>,
>
    decreases c.toks.len() - p,
{
    if c.at(p) == TokV::Dedent {
        if done.len() == 0 {
            Err(c.fault(p + 1, "enum `"@ + name + "` must have at least one variant"@))
        } else {
            Ok((done, p + 1))
        }
    } else {
        match variant_at(c, p) {
            Ok((v, p1)) => if p < p1 <= c.toks.len() {
                variants_at(c, p1, name, done.push(v))
            } else {
                Err(stuck(c.span(p)))
            },
            Err(e) => Err(e),
        }
    }
}

/// `enum Name:` NEWLINE INDENT (variant NEWLINE)+ DEDENT
pub open spec fn enum_at(c: Input, p: int) -> Parsed<EnumV> {
    match header_at(c, p) {
        Ok((name, p1)) => match variants_at(c, p1, name, Seq::empty()) {
            Ok((variants, p2)) => Ok((EnumV { name, variants, line: c.line(p) }, p2)),
            Err(e) => Err(e),
        },
        Err(e) => Err(e),
    }
}

pub open spec fn has_struct(structs: Seq<StructV>, name: Seq<char>) -> bool {
    exists|i: int| 0 <= i < structs.len() && (#[trigger] structs[i]).name == name
}

pub open spec fn has_enum(enums: Seq<EnumV>, name: Seq<char>) -> bool {
    exists|i: int| 0 <= i < enums.len() && (#[trigger] enums[i]).name == name
}

/// The declarations from position `p` on, added to those before.
pub open spec fn decls_at(c: Input, p: int, done: ProgramV) -> Result<ProgramV, Fault>
    decreases c.toks.len() - p,
{
    match c.at(p) {
        TokV::Eof => Ok(done),
        TokV::Extern => match extern_at(c, p) {
            Ok((d, p1)) => if p < p1 <= c.toks.len() {
                decls_at(c, p1, ProgramV { externs: done.externs.push(d), ..done })
            } else {
                Err(stuck(c.span(p)))
            },
            Err(e) => Err(e),
        },
        TokV::Fn => match function_at(c, p) {
            Ok((d, p1)) => if p < p1 <= c.toks.len() {
                decls_at(c, p1, ProgramV { functions: done.functions.push(d), ..done })
            } else {
                Err(stuck(c.span(p)))
            },
            Err(e) => Err(e),
        },
        TokV::Struct => match struct_at(c, p) {
            Ok((d, p1)) => if has_struct(done.structs, d.name) {
                Err(c.fault(p1, "duplicate struct `"@ + d.name + "`"@))
            } else if p < p1 <= c.toks.len() {
                decls_at(c, p1, ProgramV { structs: done.structs.push(d), ..done })
            } else {
                Err(stuck(c.span(p)))
            },
            Err(e) => Err(e),
        },
        TokV::Enum => match enum_at(c, p) {
            Ok((d, p1)) => if has_enum(done.enums, d.name) {
                Err(c.fault(p1, "duplicate enum `"@ + d.name + "`"@))
            } else if p < p1 <= c.toks.len() {
                decls_at(c, p1, ProgramV { enums: done.enums.push(d), ..done })
            } else {
                Err(stuck(c.span(p)))
            },
            Err(e) => Err(e),
        },
        other => Err(
            c.fault(
                p,
                "expected `fn`, `struct` or `extern` at top level, found "@ + other.shown(),
            ),
        ),
    }
}

/// The program that a token stream spells.
pub open spec fn parsed(toks: Seq<TokenV>) -> Result<ProgramV, Fault> {
    decls_at(input_of(toks), 0, Program::empty())
}

/// The program that a source text spells, or the first fault in it.
pub open spec fn program_of(source: Seq<char>) -> Result<ProgramV, Fault> {
    match lexed(source) {
        Ok(toks) => parsed(toks),
        Err(e) => Err(e),
    }
}

} // verus!
