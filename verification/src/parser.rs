//! Phase 2: hand-rolled recursive descent parser. What it accepts, and what it
//! makes of it, is stated in [`crate::grammar`].
use vstd::prelude::*;
use crate::ast::{
    arms_v, block_v, enums_v, exprs_v, externs_v, functions_v, names_v, params_v, structs_v,
    variants_v, BinOp, EnumDef, EnumV, Expr, ExprKind, ExprV, ExternFn, ExternV, Function,
    FunctionV, KindV, MatchArm, Param, ParamV, Pattern, PatternV, Program, ProgramV, Stmt, StmtV,
    StructDef, StructV, Type, UnOp, VariantDef, VariantV,
};
use crate::diag::{Diagnostic, Fault, Span};
use crate::grammar::{
    all_respanned, all_space, arm_body_at, arms_at, atom_at, block_at, brace_end, chain,
    checked_array, declared, decls_at, enum_at, expr_at, expr_then, extern_at, extern_param_at,
    extern_params_at, fields_at, find_name, flushed, for_at, for_stmt, fstring_bound, function_at,
    has_enum, has_param, has_struct, header_at, if_at, if_stmt, in_fstring, inner_expr, input_of,
    is_space, items, joined, let_at, match_at, named_type, names_at, node, param_at, params_at,
    pattern_at, pieces, program_of, respanned, return_at, return_type_at, scalar_type, simple_at,
    stmt_at, stmts_at, struct_at, suffixes, type_at, types_at, variant_at, variants_at, Input,
};
use crate::lexer::{law_stream_ends_once, lex, lexed, tokens_v, TokKind, TokV, Token, TokenV};
use crate::text::{cat2, cat3, cat4, cat5, chars_of, dec, dec_usize, same, text_of};

verus! {

#[derive(Debug, Clone)]
pub struct ParseError {
    pub span: Span,
    pub message: String,
}

impl ParseError {
    pub open spec fn view(&self) -> Fault {
        Fault { span: self.span, message: self.message@ }
    }

    /// The one-line form of the error.
    pub fn to_text(&self) -> (s: String)
        ensures
            s@ == "parse error (line "@ + dec(self.span.line as nat) + "): "@ + self.message@,
    {
        let n = dec_usize(self.span.line);
        cat4("parse error (line ", n.as_str(), "): ", self.message.as_str())
    }

    /// The diagnostic that reports this error.
    pub fn into_diagnostic(self) -> (d: Diagnostic)
        ensures
            d.phase@ == "parse"@,
            d.span == self.span,
            d.message@ == self.message@,
    {
        Diagnostic { phase: "parse", span: self.span, message: self.message }
    }
}

pub struct Parser {
    tokens: Vec<Token>,
    pos: usize,
    /// Struct names in order of their ids, collected by a pre-scan so a struct
    /// can be referenced before its declaration.
    structs: Vec<String>,
    /// Enum names in order of their ids, collected likewise.
    enums: Vec<String>,
}

/// Whether a token stream ends in the end of the file.
pub open spec fn ends_in_eof(toks: Seq<TokenV>) -> bool {
    toks.len() > 0 && toks.last().kind == TokV::Eof
}

/// The distinct names that follow the keyword `kw`, in order.
fn collect_names(tokens: &Vec<Token>, kw: &TokKind) -> (names: Vec<String>)
    requires
        kw@.plain(),
    ensures
        names_v(names@) == declared(tokens_v(tokens@), kw@, tokens@.len() - 1),
{
    let mut names: Vec<String> = Vec::new();
    assert(names_v(names@) =~= declared(tokens_v(tokens@), kw@, 0));
    let mut i: usize = 1;
    while i < tokens.len()
        invariant
            kw@.plain(),
            i >= 1,
            i <= tokens@.len() || i == 1,
            names_v(names@) == declared(tokens_v(tokens@), kw@, i - 1),
        decreases tokens@.len() - i,
    {
        if tokens[i - 1].kind.is(kw) {
            if let TokKind::Ident(name) = &tokens[i].kind {
                if find(&names, name.as_str()).is_none() {
                    let ghost before = names_v(names@);
                    names.push(name.clone());
                    assert(names_v(names@) =~= before.push(name@));
                }
            }
        }
        assert(declared(tokens_v(tokens@), kw@, i as int) == names_v(names@));
        i = i + 1;
    }
    if tokens.len() == 0 {
        assert(declared(tokens_v(tokens@), kw@, -1) =~= declared(tokens_v(tokens@), kw@, 0));
    }
    names
}

/// The position of the first occurrence of a name.
fn find(names: &Vec<String>, name: &str) -> (r: Option<usize>)
    ensures
        match r {
            Some(i) => find_name(names_v(names@), name@, 0) == Some(i as int) && i < names@.len(),
            None => find_name(names_v(names@), name@, 0) is None,
        },
{
    let mut i: usize = 0;
    while i < names.len()
        invariant
            i <= names@.len(),
            find_name(names_v(names@), name@, 0) == find_name(names_v(names@), name@, i as int),
        decreases names@.len() - i,
    {
        if same(names[i].as_str(), name) {
            return Some(i);
        }
        i = i + 1;
    }
    None
}

impl Parser {
    /// The token stream and the declared names.
    pub closed spec fn input(&self) -> Input {
        Input {
            toks: tokens_v(self.tokens@),
            structs: names_v(self.structs@),
            enums: names_v(self.enums@),
        }
    }

    /// The position of the next token.
    pub closed spec fn at(&self) -> int {
        self.pos as int
    }

    /// The stream ends in the end of the file, and the next token is in it.
    pub open spec fn wf(&self) -> bool {
        ends_in_eof(self.input().toks) && 0 <= self.at() < self.input().toks.len()
    }

    /// Nothing but the position changed.
    pub closed spec fn follows(&self, before: Parser) -> bool {
        self.tokens == before.tokens && self.structs == before.structs && self.enums
            == before.enums
    }

    pub fn new(tokens: Vec<Token>) -> (p: Self)
        ensures
            p.input() == input_of(tokens_v(tokens@)),
            p.at() == 0,
    {
        let structs = collect_names(&tokens, &TokKind::Struct);
        let enums = collect_names(&tokens, &TokKind::Enum);
        Parser { tokens, pos: 0, structs, enums }
    }

    fn peek(&self) -> (k: &TokKind)
        requires
            self.wf(),
        ensures
            k@ == self.input().at(self.at()),
    {
        &self.tokens[self.pos].kind
    }

    fn span(&self) -> (s: Span)
        requires
            self.wf(),
        ensures
            s == self.input().span(self.at()),
    {
        self.tokens[self.pos].span
    }

    fn line(&self) -> (n: usize)
        requires
            self.wf(),
        ensures
            n == self.input().line(self.at()),
    {
        self.tokens[self.pos].span.line
    }

    /// Steps over the next token, which is not the end of the file.
    fn advance(&mut self)
        requires
            old(self).wf(),
            old(self).input().at(old(self).at()) != TokV::Eof,
        ensures
            final(self).wf(),
            final(self).follows(*old(self)),
            final(self).at() == old(self).at() + 1,
    {
        assert(self.tokens@.len() == self.tokens.len());
        self.pos = self.pos + 1;
    }

    /// Steps over the next token where it is of that kind.
    fn check(&mut self, kind: &TokKind) -> (b: bool)
        requires
            old(self).wf(),
            kind@.plain(),
            kind@ != TokV::Eof,
        ensures
            final(self).wf(),
            final(self).follows(*old(self)),
            b == (old(self).input().at(old(self).at()) == kind@),
            final(self).at() == old(self).at() + (if b {
                1int
            } else {
                0
            }),
    {
        if self.peek().is(kind) {
            self.advance();
            true
        } else {
            false
        }
    }

    fn expect(&mut self, kind: TokKind) -> (r: Result<(), ParseError>)
        requires
            old(self).wf(),
            kind@.plain(),
            kind@ != TokV::Eof,
        ensures
            final(self).wf(),
            final(self).follows(*old(self)),
            match r {
                Ok(_) => old(self).input().expect(old(self).at(), kind@) == Ok::<int, Fault>(
                    final(self).at(),
                ),
                Err(e) => old(self).input().expect(old(self).at(), kind@) == Err::<int, Fault>(e@),
            },
    {
        if self.peek().is(&kind) {
            self.advance();
            Ok(())
        } else {
            Err(
                self.error(
                    cat4(
                        "expected ",
                        kind.to_text().as_str(),
                        ", found ",
                        self.peek().to_text().as_str(),
                    ),
                ),
            )
        }
    }

    fn error(&self, message: String) -> (e: ParseError)
        requires
            self.wf(),
        ensures
            e@ == self.input().fault(self.at(), message@),
    {
        ParseError { span: self.span(), message }
    }

    fn expect_ident(&mut self) -> (r: Result<String, ParseError>)
        requires
            old(self).wf(),
        ensures
            final(self).wf(),
            final(self).follows(*old(self)),
            match r {
                Ok(name) => old(self).input().ident(old(self).at()) == Ok::<_, Fault>(
                    (name@, final(self).at()),
                ),
                Err(e) => old(self).input().ident(old(self).at()) == Err::<(Seq<char>, int), Fault>(
                    e@,
                ),
            },
    {
        let name = match self.peek() {
            TokKind::Ident(name) => Some(name.clone()),
            _ => None,
        };
        match name {
            Some(name) => {
                self.advance();
                Ok(name)
            },
            None => Err(
                self.error(cat2("expected identifier, found ", self.peek().to_text().as_str())),
            ),
        }
    }

    // ----- expressions ----------------------------------------------------------------
    pub fn parse_expression(&mut self) -> (r: Result<Expr, ParseError>)
        requires
            old(self).wf(),
        ensures
            final(self).wf(),
            final(self).follows(*old(self)),
            match r {
                Ok(e) => {
                    &&& expr_at(old(self).input(), old(self).at(), 7)
                        == Ok::<_, Fault>((e@, final(self).at()))
                    &&& old(self).at() < final(self).at()
                },
                Err(e) => expr_at(old(self).input(), old(self).at(), 7)
                    == Err::<(ExprV, int), Fault>(e@),
            },
        decreases
            fstring_bound(old(self).input().toks),
            old(self).input().toks.len() - old(self).at(),
            18nat,
    {
        self.parse_or()
    }

    fn parse_or(&mut self) -> (r: Result<Expr, ParseError>)
        requires
            old(self).wf(),
        ensures
            final(self).wf(),
            final(self).follows(*old(self)),
            match r {
                Ok(e) => {
                    &&& expr_at(old(self).input(), old(self).at(), 7)
                        == Ok::<_, Fault>((e@, final(self).at()))
                    &&& old(self).at() < final(self).at()
                },
                Err(e) => expr_at(old(self).input(), old(self).at(), 7)
                    == Err::<(ExprV, int), Fault>(e@),
            },
        decreases
            fstring_bound(old(self).input().toks),
            old(self).input().toks.len() - old(self).at(),
            7nat + 10,
    {
        let ghost c = self.input();
        let ghost start = self.at();
        let first = match self.parse_and() {
            Ok(v) => v,
            Err(e) => {
                return Err(e);
            },
        };
        let mut lhs = first;
        loop
            invariant
                self.wf(),
                self.follows(*old(self)),
                c == old(self).input(),
                start == old(self).at(),
                c == self.input(),
                start < self.at(),
                chain(c, self.at(), 7, lhs@) == expr_at(c, start, 7),
            decreases c.toks.len() - self.at(),
        {
            let op = match self.peek() {
                TokKind::Or => BinOp::Or,
                _ => {
                    return Ok(lhs);
                },
            };
            let span = self.span();
            self.advance();
            let rhs = match self.parse_and() {
                Ok(v) => v,
                Err(e) => {
                    return Err(e);
                },
            };
            lhs = Expr::new(ExprKind::Binary(Box::new(lhs), op, Box::new(rhs)), span);
        }
    }

    fn parse_and(&mut self) -> (r: Result<Expr, ParseError>)
        requires
            old(self).wf(),
        ensures
            final(self).wf(),
            final(self).follows(*old(self)),
            match r {
                Ok(e) => {
                    &&& expr_at(old(self).input(), old(self).at(), 6)
                        == Ok::<_, Fault>((e@, final(self).at()))
                    &&& old(self).at() < final(self).at()
                },
                Err(e) => expr_at(old(self).input(), old(self).at(), 6)
                    == Err::<(ExprV, int), Fault>(e@),
            },
        decreases
            fstring_bound(old(self).input().toks),
            old(self).input().toks.len() - old(self).at(),
            6nat + 10,
    {
        let ghost c = self.input();
        let ghost start = self.at();
        let first = match self.parse_not() {
            Ok(v) => v,
            Err(e) => {
                return Err(e);
            },
        };
        let mut lhs = first;
        loop
            invariant
                self.wf(),
                self.follows(*old(self)),
                c == old(self).input(),
                start == old(self).at(),
                c == self.input(),
                start < self.at(),
                chain(c, self.at(), 6, lhs@) == expr_at(c, start, 6),
            decreases c.toks.len() - self.at(),
        {
            let op = match self.peek() {
                TokKind::And => BinOp::And,
                _ => {
                    return Ok(lhs);
                },
            };
            let span = self.span();
            self.advance();
            let rhs = match self.parse_not() {
                Ok(v) => v,
                Err(e) => {
                    return Err(e);
                },
            };
            lhs = Expr::new(ExprKind::Binary(Box::new(lhs), op, Box::new(rhs)), span);
        }
    }

    fn parse_not(&mut self) -> (r: Result<Expr, ParseError>)
        requires
            old(self).wf(),
        ensures
            final(self).wf(),
            final(self).follows(*old(self)),
            match r {
                Ok(e) => {
                    &&& expr_at(old(self).input(), old(self).at(), 5)
                        == Ok::<_, Fault>((e@, final(self).at()))
                    &&& old(self).at() < final(self).at()
                },
                Err(e) => expr_at(old(self).input(), old(self).at(), 5)
                    == Err::<(ExprV, int), Fault>(e@),
            },
        decreases
            fstring_bound(old(self).input().toks),
            old(self).input().toks.len() - old(self).at(),
            5nat + 10,
    {
        if self.peek().is(&TokKind::Not) {
            let span = self.span();
            self.advance();
            match self.parse_not() {
                Ok(operand) => Ok(Expr::new(ExprKind::Unary(UnOp::Not, Box::new(operand)), span)),
                Err(e) => Err(e),
            }
        } else {
            self.parse_comparison()
        }
    }

    fn parse_comparison(&mut self) -> (r: Result<Expr, ParseError>)
        requires
            old(self).wf(),
        ensures
            final(self).wf(),
            final(self).follows(*old(self)),
            match r {
                Ok(e) => {
                    &&& expr_at(old(self).input(), old(self).at(), 4)
                        == Ok::<_, Fault>((e@, final(self).at()))
                    &&& old(self).at() < final(self).at()
                },
                Err(e) => expr_at(old(self).input(), old(self).at(), 4)
                    == Err::<(ExprV, int), Fault>(e@),
            },
        decreases
            fstring_bound(old(self).input().toks),
            old(self).input().toks.len() - old(self).at(),
            4nat + 10,
    {
        let lhs = match self.parse_additive() {
            Ok(v) => v,
            Err(e) => {
                return Err(e);
            },
        };
        let op = match self.peek() {
            TokKind::EqEq => BinOp::Eq,
            TokKind::NotEq => BinOp::Ne,
            TokKind::Lt => BinOp::Lt,
            TokKind::Le => BinOp::Le,
            TokKind::Gt => BinOp::Gt,
            TokKind::Ge => BinOp::Ge,
            _ => {
                return Ok(lhs);
            },
        };
        let span = self.span();
        self.advance();
        let rhs = match self.parse_additive() {
            Ok(v) => v,
            Err(e) => {
                return Err(e);
            },
        };
        Ok(Expr::new(ExprKind::Binary(Box::new(lhs), op, Box::new(rhs)), span))
    }

    fn parse_additive(&mut self) -> (r: Result<Expr, ParseError>)
        requires
            old(self).wf(),
        ensures
            final(self).wf(),
            final(self).follows(*old(self)),
            match r {
                Ok(e) => {
                    &&& expr_at(old(self).input(), old(self).at(), 3)
                        == Ok::<_, Fault>((e@, final(self).at()))
                    &&& old(self).at() < final(self).at()
                },
                Err(e) => expr_at(old(self).input(), old(self).at(), 3)
                    == Err::<(ExprV, int), Fault>(e@),
            },
        decreases
            fstring_bound(old(self).input().toks),
            old(self).input().toks.len() - old(self).at(),
            3nat + 10,
    {
        let ghost c = self.input();
        let ghost start = self.at();
        let first = match self.parse_term() {
            Ok(v) => v,
            Err(e) => {
                return Err(e);
            },
        };
        let mut lhs = first;
        loop
            invariant
                self.wf(),
                self.follows(*old(self)),
                c == old(self).input(),
                start == old(self).at(),
                c == self.input(),
                start < self.at(),
                chain(c, self.at(), 3, lhs@) == expr_at(c, start, 3),
            decreases c.toks.len() - self.at(),
        {
            let op = match self.peek() {
                TokKind::Plus => BinOp::Add,
                TokKind::Minus => BinOp::Sub,
                _ => {
                    return Ok(lhs);
                },
            };
            let span = self.span();
            self.advance();
            let rhs = match self.parse_term() {
                Ok(v) => v,
                Err(e) => {
                    return Err(e);
                },
            };
            lhs = Expr::new(ExprKind::Binary(Box::new(lhs), op, Box::new(rhs)), span);
        }
    }

    fn parse_term(&mut self) -> (r: Result<Expr, ParseError>)
        requires
            old(self).wf(),
        ensures
            final(self).wf(),
            final(self).follows(*old(self)),
            match r {
                Ok(e) => {
                    &&& expr_at(old(self).input(), old(self).at(), 2)
                        == Ok::<_, Fault>((e@, final(self).at()))
                    &&& old(self).at() < final(self).at()
                },
                Err(e) => expr_at(old(self).input(), old(self).at(), 2)
                    == Err::<(ExprV, int), Fault>(e@),
            },
        decreases
            fstring_bound(old(self).input().toks),
            old(self).input().toks.len() - old(self).at(),
            2nat + 10,
    {
        let ghost c = self.input();
        let ghost start = self.at();
        let first = match self.parse_unary() {
            Ok(v) => v,
            Err(e) => {
                return Err(e);
            },
        };
        let mut lhs = first;
        loop
            invariant
                self.wf(),
                self.follows(*old(self)),
                c == old(self).input(),
                start == old(self).at(),
                c == self.input(),
                start < self.at(),
                chain(c, self.at(), 2, lhs@) == expr_at(c, start, 2),
            decreases c.toks.len() - self.at(),
        {
            let op = match self.peek() {
                TokKind::Star => BinOp::Mul,
                TokKind::Slash => BinOp::Div,
                TokKind::Percent => BinOp::Rem,
                _ => {
                    return Ok(lhs);
                },
            };
            let span = self.span();
            self.advance();
            let rhs = match self.parse_unary() {
                Ok(v) => v,
                Err(e) => {
                    return Err(e);
                },
            };
            lhs = Expr::new(ExprKind::Binary(Box::new(lhs), op, Box::new(rhs)), span);
        }
    }

    fn parse_unary(&mut self) -> (r: Result<Expr, ParseError>)
        requires
            old(self).wf(),
        ensures
            final(self).wf(),
            final(self).follows(*old(self)),
            match r {
                Ok(e) => {
                    &&& expr_at(old(self).input(), old(self).at(), 1)
                        == Ok::<_, Fault>((e@, final(self).at()))
                    &&& old(self).at() < final(self).at()
                },
                Err(e) => expr_at(old(self).input(), old(self).at(), 1)
                    == Err::<(ExprV, int), Fault>(e@),
            },
        decreases
            fstring_bound(old(self).input().toks),
            old(self).input().toks.len() - old(self).at(),
            1nat + 10,
    {
        if self.peek().is(&TokKind::Minus) {
            let span = self.span();
            self.advance();
            match self.parse_unary() {
                Ok(operand) => Ok(Expr::new(ExprKind::Unary(UnOp::Neg, Box::new(operand)), span)),
                Err(e) => Err(e),
            }
        } else {
            self.parse_primary()
        }
    }

    /// An atom followed by any number of `[index]`, `.field` and `.method(args)`
    /// suffixes.
    fn parse_primary(&mut self) -> (r: Result<Expr, ParseError>)
        requires
            old(self).wf(),
        ensures
            final(self).wf(),
            final(self).follows(*old(self)),
            match r {
                Ok(e) => {
                    &&& expr_at(old(self).input(), old(self).at(), 0)
                        == Ok::<_, Fault>((e@, final(self).at()))
                    &&& old(self).at() < final(self).at()
                },
                Err(e) => expr_at(old(self).input(), old(self).at(), 0)
                    == Err::<(ExprV, int), Fault>(e@),
            },
        decreases
            fstring_bound(old(self).input().toks),
            old(self).input().toks.len() - old(self).at(),
            10nat,
    {
        let ghost c = self.input();
        let ghost start = self.at();
        let first = match self.parse_atom() {
            Ok(v) => v,
            Err(e) => {
                return Err(e);
            },
        };
        let mut expr = first;
        loop
            invariant
                self.wf(),
                self.follows(*old(self)),
                c == old(self).input(),
                start == old(self).at(),
                c == self.input(),
                start < self.at(),
                suffixes(c, self.at(), expr@) == expr_at(c, start, 0),
            decreases c.toks.len() - self.at(),
        {
            let span = self.span();
            if self.check(&TokKind::LBracket) {
                let index = match self.parse_expression() {
                    Ok(v) => v,
                    Err(e) => {
                        return Err(e);
                    },
                };
                match self.expect(TokKind::RBracket) {
                    Ok(_) => {},
                    Err(e) => {
                        return Err(e);
                    },
                }
                expr = Expr::new(ExprKind::Index(Box::new(expr), Box::new(index)), span);
            } else if self.check(&TokKind::Dot) {
                let name = match self.expect_ident() {
                    Ok(v) => v,
                    Err(e) => {
                        return Err(e);
                    },
                };
                if self.check(&TokKind::LParen) {
                    let args = match self.parse_items(TokKind::RParen) {
                        Ok(v) => v,
                        Err(e) => {
                            return Err(e);
                        },
                    };
                    expr = Expr::new(ExprKind::MethodCall(Box::new(expr), name, args), span);
                } else {
                    expr = Expr::new(ExprKind::Field(Box::new(expr), name), span);
                }
            } else {
                return Ok(expr);
            }
        }
    }

    /// Expressions separated by commas up to the token `close`.
    fn parse_items(&mut self, close: TokKind) -> (r: Result<Vec<Expr>, ParseError>)
        requires
            old(self).wf(),
            close@.plain(),
            close@ != TokV::Eof,
        ensures
            final(self).wf(),
            final(self).follows(*old(self)),
            match r {
                Ok(e) => {
                    &&& items(old(self).input(), old(self).at(), close@, Seq::empty())
                        == Ok::<_, Fault>((exprs_v(e@), final(self).at()))
                    &&& old(self).at() < final(self).at()
                },
                Err(e) => items(old(self).input(), old(self).at(), close@, Seq::empty())
                    == Err::<(Seq<ExprV>, int), Fault>(e@),
            },
        decreases
            fstring_bound(old(self).input().toks),
            old(self).input().toks.len() - old(self).at(),
            20nat,
    {
        let ghost c = self.input();
        let ghost start = self.at();
        let mut done: Vec<Expr> = Vec::new();
        assert(exprs_v(done@) =~= Seq::empty());
        loop
            invariant
                self.wf(),
                self.follows(*old(self)),
                c == old(self).input(),
                start == old(self).at(),
                c == self.input(),
                start <= self.at(),
                close@.plain(),
                close@ != TokV::Eof,
                items(c, self.at(), close@, exprs_v(done@))
                    == items(c, start, close@, Seq::empty()),
            decreases c.toks.len() - self.at(),
        {
            if self.check(&close) {
                return Ok(done);
            }
            let e = match self.parse_expression() {
                Ok(v) => v,
                Err(e) => {
                    return Err(e);
                },
            };
            let ghost before = exprs_v(done@);
            let ghost last = e@;
            done.push(e);
            assert(exprs_v(done@) =~= before.push(last));
            if !self.check(&TokKind::Comma) {
                match self.expect(close) {
                    Ok(_) => {},
                    Err(e) => {
                        return Err(e);
                    },
                }
                return Ok(done);
            }
        }
    }

    fn parse_atom(&mut self) -> (r: Result<Expr, ParseError>)
        requires
            old(self).wf(),
        ensures
            final(self).wf(),
            final(self).follows(*old(self)),
            match r {
                Ok(e) => {
                    &&& atom_at(old(self).input(), old(self).at())
                        == Ok::<_, Fault>((e@, final(self).at()))
                    &&& old(self).at() < final(self).at()
                },
                Err(e) => atom_at(old(self).input(), old(self).at())
                    == Err::<(ExprV, int), Fault>(e@),
            },
        decreases
            fstring_bound(old(self).input().toks),
            old(self).input().toks.len() - old(self).at(),
            8nat,
    {
        let ghost c = self.input();
        let span = self.span();
        let kind = match self.peek() {
            TokKind::Int(n) => Some(ExprKind::Int(*n)),
            TokKind::Float(s) => Some(ExprKind::Float(s.clone())),
            TokKind::Str(s) => Some(ExprKind::Str(s.clone())),
            TokKind::True => Some(ExprKind::Bool(true)),
            TokKind::False => Some(ExprKind::Bool(false)),
            _ => None,
        };
        if let Some(kind) = kind {
            self.advance();
            return Ok(Expr::new(kind, span));
        }
        let fstr = match self.peek() {
            TokKind::FStr(s) => Some(s.clone()),
            _ => None,
        };
        if let Some(s) = fstr {
            proof {
                lemma_fstring_bound(c.toks, self.at());
            }
            self.advance();
            return desugar_fstring(s.as_str(), span);
        }
        let name = match self.peek() {
            TokKind::Ident(name) => Some(name.clone()),
            _ => None,
        };
        if let Some(name) = name {
            self.advance();
            if self.check(&TokKind::LParen) {
                return match self.parse_items(TokKind::RParen) {
                    Ok(args) => Ok(Expr::new(ExprKind::Call(name, args), span)),
                    Err(e) => Err(e),
                };
            }
            return Ok(Expr::new(ExprKind::Var(name), span));
        }
        if self.check(&TokKind::LParen) {
            let inner = match self.parse_expression() {
                Ok(v) => v,
                Err(e) => {
                    return Err(e);
                },
            };
            return match self.expect(TokKind::RParen) {
                Ok(_) => Ok(inner),
                Err(e) => Err(e),
            };
        }
        if self.check(&TokKind::LBracket) {
            return match self.parse_items(TokKind::RBracket) {
                Ok(elems) => Ok(Expr::new(ExprKind::ArrayLit(elems), span)),
                Err(e) => Err(e),
            };
        }
        let found = self.peek().to_text();
        Err(self.error(cat3("unexpected ", found.as_str(), " in expression")))
    }

    // ----- types --------------------------------------------------------------------
    fn parse_type(&mut self) -> (r: Result<Type, ParseError>)
        requires
            old(self).wf(),
        ensures
            final(self).wf(),
            final(self).follows(*old(self)),
            match r {
                Ok(e) => {
                    &&& type_at(old(self).input(), old(self).at())
                        == Ok::<_, Fault>((e, final(self).at()))
                    &&& old(self).at() < final(self).at()
                },
                Err(e) => type_at(old(self).input(), old(self).at())
                    == Err::<(Type, int), Fault>(e@),
            },
        decreases old(self).input().toks.len() - old(self).at(), 0nat,
    {
        if self.check(&TokKind::LBracket) {
            let elem = match self.parse_type() {
                Ok(v) => v,
                Err(e) => {
                    return Err(e);
                },
            };
            match self.expect(TokKind::RBracket) {
                Ok(_) => {},
                Err(e) => {
                    return Err(e);
                },
            }
            match nested_array(elem) {
                Some(t) => Ok(t),
                None => Err(
                    self.error(cat3("`[", elem.to_text().as_str(), "]` is not a valid array type")),
                ),
            }
        } else {
            let name = match self.expect_ident() {
                Ok(v) => v,
                Err(e) => {
                    return Err(e);
                },
            };
            match self.type_named(name.as_str()) {
                Some(t) => Ok(t),
                None => Err(self.error(cat3("unknown type `", name.as_str(), "`"))),
            }
        }
    }

    /// The type that a name stands for.
    fn type_named(&self, name: &str) -> (t: Option<Type>)
        ensures
            t == named_type(self.input(), name@),
    {
        match scalar_named(name) {
            Some(t) => Some(t),
            None => match find(&self.structs, name) {
                Some(i) => Some(Type::Struct(i as u32)),
                None => match find(&self.enums, name) {
                    Some(i) => Some(Type::Enum(i as u32)),
                    None => None,
                },
            },
        }
    }

    fn parse_return_type(&mut self) -> (r: Result<Type, ParseError>)
        requires
            old(self).wf(),
        ensures
            final(self).wf(),
            final(self).follows(*old(self)),
            match r {
                Ok(e) => {
                    &&& return_type_at(old(self).input(), old(self).at())
                        == Ok::<_, Fault>((e, final(self).at()))
                    &&& old(self).at() <= final(self).at()
                },
                Err(e) => return_type_at(old(self).input(), old(self).at())
                    == Err::<(Type, int), Fault>(e@),
            },
    {
        if self.check(&TokKind::Arrow) {
            self.parse_type()
        } else {
            Ok(Type::Unit)
        }
    }

    // ----- statements ---------------------------------------------------------------
    /// A block is NEWLINE INDENT stmt+ DEDENT.
    fn parse_block(&mut self) -> (r: Result<Vec<Stmt>, ParseError>)
        requires
            old(self).wf(),
        ensures
            final(self).wf(),
            final(self).follows(*old(self)),
            match r {
                Ok(e) => {
                    &&& block_at(old(self).input(), old(self).at())
                        == Ok::<_, Fault>((block_v(e@), final(self).at()))
                    &&& old(self).at() < final(self).at()
                },
                Err(e) => block_at(old(self).input(), old(self).at())
                    == Err::<(Seq<StmtV>, int), Fault>(e@),
            },
        decreases old(self).input().toks.len() - old(self).at(), 1nat,
    {
        let ghost c = self.input();
        let ghost start = self.at();
        match self.expect(TokKind::Newline) {
            Ok(_) => {},
            Err(e) => {
                return Err(e);
            },
        }
        match self.expect(TokKind::Indent) {
            Ok(_) => {},
            Err(e) => {
                return Err(e);
            },
        }
        let mut stmts: Vec<Stmt> = Vec::new();
        assert(block_v(stmts@) =~= Seq::empty());
        loop
            invariant
                self.wf(),
                self.follows(*old(self)),
                c == old(self).input(),
                start == old(self).at(),
                c == self.input(),
                start < self.at(),
                stmts_at(c, self.at(), block_v(stmts@)) == block_at(c, start),
            decreases c.toks.len() - self.at(),
        {
            if self.check(&TokKind::Dedent) {
                if stmts.len() == 0 {
                    return Err(self.error(String::from_str("block cannot be empty")));
                }
                return Ok(stmts);
            }
            if self.peek().is(&TokKind::Eof) {
                return Err(self.error(String::from_str("unexpected end of file inside block")));
            }
            let stmt = match self.parse_statement() {
                Ok(v) => v,
                Err(e) => {
                    return Err(e);
                },
            };
            let ghost before = block_v(stmts@);
            let ghost last = stmt@;
            stmts.push(stmt);
            assert(block_v(stmts@) =~= before.push(last));
        }
    }

    fn parse_statement(&mut self) -> (r: Result<Stmt, ParseError>)
        requires
            old(self).wf(),
        ensures
            final(self).wf(),
            final(self).follows(*old(self)),
            match r {
                Ok(e) => {
                    &&& stmt_at(old(self).input(), old(self).at())
                        == Ok::<_, Fault>((e@, final(self).at()))
                    &&& old(self).at() < final(self).at()
                },
                Err(e) => stmt_at(old(self).input(), old(self).at())
                    == Err::<(StmtV, int), Fault>(e@),
            },
        decreases old(self).input().toks.len() - old(self).at(), 3nat,
    {
        let line: usize = self.line();
        let ghost c = self.input();
        let ghost start = self.at();
        match self.peek() {
            TokKind::Let => self.parse_let(),
            TokKind::Return => self.parse_return(),
            TokKind::Break => {
                self.advance();
                match self.expect(TokKind::Newline) {
                    Ok(_) => {},
                    Err(e) => {
                        return Err(e);
                    },
                }
                Ok(Stmt::Break { line })
            },
            TokKind::Continue => {
                self.advance();
                match self.expect(TokKind::Newline) {
                    Ok(_) => {},
                    Err(e) => {
                        return Err(e);
                    },
                }
                Ok(Stmt::Continue { line })
            },
            TokKind::If => self.parse_if(),
            TokKind::For => self.parse_for(),
            TokKind::Match => self.parse_match(),
            TokKind::While => {
                self.advance();
                let cond = match self.parse_expr_then(TokKind::Colon) {
                    Ok(v) => v,
                    Err(e) => {
                        return Err(e);
                    },
                };
                let body = match self.parse_block() {
                    Ok(v) => v,
                    Err(e) => {
                        return Err(e);
                    },
                };
                Ok(Stmt::While { cond, body })
            },
            TokKind::Ident(_) => self.parse_simple(),
            other => {
                let found = other.to_text();
                Err(self.error(cat3("unexpected ", found.as_str(), " at start of statement")))
            },
        }
    }

    /// An expression, then the token `close`.
    fn parse_expr_then(&mut self, close: TokKind) -> (r: Result<Expr, ParseError>)
        requires
            old(self).wf(),
            close@.plain(),
            close@ != TokV::Eof,
        ensures
            final(self).wf(),
            final(self).follows(*old(self)),
            match r {
                Ok(e) => {
                    &&& expr_then(old(self).input(), old(self).at(), close@)
                        == Ok::<_, Fault>((e@, final(self).at()))
                    &&& old(self).at() < final(self).at()
                },
                Err(e) => expr_then(old(self).input(), old(self).at(), close@)
                    == Err::<(ExprV, int), Fault>(e@),
            },
    {
        let e = match self.parse_expression() {
            Ok(v) => v,
            Err(e) => {
                return Err(e);
            },
        };
        match self.expect(close) {
            Ok(_) => Ok(e),
            Err(e) => Err(e),
        }
    }

    fn parse_let(&mut self) -> (r: Result<Stmt, ParseError>)
        requires
            old(self).wf(),
            old(self).input().at(old(self).at()) == TokV::Let,
        ensures
            final(self).wf(),
            final(self).follows(*old(self)),
            match r {
                Ok(e) => {
                    &&& let_at(old(self).input(), old(self).at())
                        == Ok::<_, Fault>((e@, final(self).at()))
                    &&& old(self).at() < final(self).at()
                },
                Err(e) => let_at(old(self).input(), old(self).at())
                    == Err::<(StmtV, int), Fault>(e@),
            },
    {
        let line: usize = self.line();
        self.advance();
        let name = match self.expect_ident() {
            Ok(v) => v,
            Err(e) => {
                return Err(e);
            },
        };
        let ty = if self.check(&TokKind::Colon) {
            match self.parse_type() {
                Ok(t) => Some(t),
                Err(e) => {
                    return Err(e);
                },
            }
        } else {
            None
        };
        match self.expect(TokKind::Assign) {
            Ok(_) => {},
            Err(e) => {
                return Err(e);
            },
        }
        let value = match self.parse_expr_then(TokKind::Newline) {
            Ok(v) => v,
            Err(e) => {
                return Err(e);
            },
        };
        Ok(Stmt::Let { name, ty, value, line })
    }

    fn parse_return(&mut self) -> (r: Result<Stmt, ParseError>)
        requires
            old(self).wf(),
            old(self).input().at(old(self).at()) == TokV::Return,
        ensures
            final(self).wf(),
            final(self).follows(*old(self)),
            match r {
                Ok(e) => {
                    &&& return_at(old(self).input(), old(self).at())
                        == Ok::<_, Fault>((e@, final(self).at()))
                    &&& old(self).at() < final(self).at()
                },
                Err(e) => return_at(old(self).input(), old(self).at())
                    == Err::<(StmtV, int), Fault>(e@),
            },
    {
        let line: usize = self.line();
        self.advance();
        if self.check(&TokKind::Newline) {
            return Ok(Stmt::Return { value: None, line });
        }
        let value = match self.parse_expr_then(TokKind::Newline) {
            Ok(v) => v,
            Err(e) => {
                return Err(e);
            },
        };
        Ok(Stmt::Return { value: Some(value), line })
    }

    /// Assignment or bare expression: the expression comes first, then a
    /// trailing `=` decides — the target must be a name, an index or a field.
    fn parse_simple(&mut self) -> (r: Result<Stmt, ParseError>)
        requires
            old(self).wf(),
        ensures
            final(self).wf(),
            final(self).follows(*old(self)),
            match r {
                Ok(e) => {
                    &&& simple_at(old(self).input(), old(self).at())
                        == Ok::<_, Fault>((e@, final(self).at()))
                    &&& old(self).at() < final(self).at()
                },
                Err(e) => simple_at(old(self).input(), old(self).at())
                    == Err::<(StmtV, int), Fault>(e@),
            },
    {
        let line: usize = self.line();
        let expr = match self.parse_expression() {
            Ok(v) => v,
            Err(e) => {
                return Err(e);
            },
        };
        if self.check(&TokKind::Assign) {
            let value = match self.parse_expr_then(TokKind::Newline) {
                Ok(v) => v,
                Err(e) => {
                    return Err(e);
                },
            };
            match expr.kind {
                ExprKind::Var(name) => Ok(Stmt::Assign { name, value, line }),
                ExprKind::Index(target, index) => Ok(
                    Stmt::IndexAssign { target: *target, index: *index, value, line },
                ),
                ExprKind::Field(target, field) => Ok(
                    Stmt::FieldAssign { target: *target, field, value, line },
                ),
                _ => Err(
                    ParseError {
                        span: expr.span,
                        message: String::from_str("invalid assignment target"),
                    },
                ),
            }
        } else {
            match self.expect(TokKind::Newline) {
                Ok(_) => {},
                Err(e) => {
                    return Err(e);
                },
            }
            Ok(Stmt::Expr(expr))
        }
    }

    /// `for i in range(end):`, `for i in range(start, end):`, or
    /// `for x in <array expr>:`. `range` is loop syntax, not a function —
    /// it never escapes a `for`.
    fn parse_for(&mut self) -> (r: Result<Stmt, ParseError>)
        requires
            old(self).wf(),
            old(self).input().at(old(self).at()) == TokV::For,
        ensures
            final(self).wf(),
            final(self).follows(*old(self)),
            match r {
                Ok(e) => {
                    &&& for_at(old(self).input(), old(self).at())
                        == Ok::<_, Fault>((e@, final(self).at()))
                    &&& old(self).at() < final(self).at()
                },
                Err(e) => for_at(old(self).input(), old(self).at())
                    == Err::<(StmtV, int), Fault>(e@),
            },
        decreases old(self).input().toks.len() - old(self).at(), 2nat,
    {
        let line: usize = self.line();
        self.advance();
        let var = match self.expect_ident() {
            Ok(v) => v,
            Err(e) => {
                return Err(e);
            },
        };
        match self.expect(TokKind::In) {
            Ok(_) => {},
            Err(e) => {
                return Err(e);
            },
        }
        let iterable = match self.parse_expr_then(TokKind::Colon) {
            Ok(v) => v,
            Err(e) => {
                return Err(e);
            },
        };
        let body = match self.parse_block() {
            Ok(v) => v,
            Err(e) => {
                return Err(e);
            },
        };
        make_for(var, iterable, body, line)
    }

    /// A conditional, from its `if` on.
    pub fn parse_if(&mut self) -> (r: Result<Stmt, ParseError>)
        requires
            old(self).wf(),
        ensures
            final(self).wf(),
            final(self).follows(*old(self)),
            match r {
                Ok(e) => {
                    &&& if_stmt(old(self).input(), old(self).at())
                        == Ok::<_, Fault>((e@, final(self).at()))
                    &&& old(self).at() < final(self).at()
                },
                Err(e) => if_stmt(old(self).input(), old(self).at())
                    == Err::<(StmtV, int), Fault>(e@),
            },
        decreases old(self).input().toks.len() - old(self).at(), 2nat,
    {
        match self.expect(TokKind::If) {
            Ok(_) => self.parse_branch(),
            Err(e) => Err(e),
        }
    }

    /// A conditional behind its `if` or `elif`; `elif` chains desugar to nested
    /// if/else.
    fn parse_branch(&mut self) -> (r: Result<Stmt, ParseError>)
        requires
            old(self).wf(),
            old(self).at() > 0,
        ensures
            final(self).wf(),
            final(self).follows(*old(self)),
            match r {
                Ok(e) => {
                    &&& if_at(old(self).input(), old(self).at() - 1)
                        == Ok::<_, Fault>((e@, final(self).at()))
                    &&& old(self).at() < final(self).at()
                },
                Err(e) => if_at(old(self).input(), old(self).at() - 1)
                    == Err::<(StmtV, int), Fault>(e@),
            },
        decreases old(self).input().toks.len() - old(self).at(), 2nat,
    {
        let cond = match self.parse_expr_then(TokKind::Colon) {
            Ok(v) => v,
            Err(e) => {
                return Err(e);
            },
        };
        let then_block = match self.parse_block() {
            Ok(v) => v,
            Err(e) => {
                return Err(e);
            },
        };
        if self.check(&TokKind::Elif) {
            let nested = match self.parse_branch() {
                Ok(v) => v,
                Err(e) => {
                    return Err(e);
                },
            };
            let ghost inner = nested@;
            let block = vec![nested];
            assert(block_v(block@) =~= seq![inner]);
            Ok(Stmt::If { cond, then_block, else_block: Some(block) })
        } else if self.check(&TokKind::Else) {
            match self.expect(TokKind::Colon) {
                Ok(_) => {},
                Err(e) => {
                    return Err(e);
                },
            }
            let block = match self.parse_block() {
                Ok(v) => v,
                Err(e) => {
                    return Err(e);
                },
            };
            Ok(Stmt::If { cond, then_block, else_block: Some(block) })
        } else {
            Ok(Stmt::If { cond, then_block, else_block: None })
        }
    }

    fn parse_names(&mut self) -> (r: Result<Vec<String>, ParseError>)
        requires
            old(self).wf(),
        ensures
            final(self).wf(),
            final(self).follows(*old(self)),
            match r {
                Ok(e) => {
                    &&& names_at(old(self).input(), old(self).at(), Seq::empty())
                        == Ok::<_, Fault>((names_v(e@), final(self).at()))
                    &&& old(self).at() < final(self).at()
                },
                Err(e) => names_at(old(self).input(), old(self).at(), Seq::empty())
                    == Err::<(Seq<Seq<char>>, int), Fault>(e@),
            },
    {
        let ghost c = self.input();
        let ghost start = self.at();
        let mut names: Vec<String> = Vec::new();
        assert(names_v(names@) =~= Seq::empty());
        loop
            invariant
                self.wf(),
                self.follows(*old(self)),
                c == old(self).input(),
                start == old(self).at(),
                c == self.input(),
                start <= self.at(),
                names_at(c, self.at(), names_v(names@)) == names_at(c, start, Seq::empty()),
            decreases c.toks.len() - self.at(),
        {
            if self.check(&TokKind::RParen) {
                return Ok(names);
            }
            let name = match self.expect_ident() {
                Ok(v) => v,
                Err(e) => {
                    return Err(e);
                },
            };
            let ghost before = names_v(names@);
            let ghost last = name@;
            names.push(name);
            assert(names_v(names@) =~= before.push(last));
            if !self.check(&TokKind::Comma) {
                match self.expect(TokKind::RParen) {
                    Ok(_) => {},
                    Err(e) => {
                        return Err(e);
                    },
                }
                return Ok(names);
            }
        }
    }

    fn parse_pattern(&mut self) -> (r: Result<Pattern, ParseError>)
        requires
            old(self).wf(),
        ensures
            final(self).wf(),
            final(self).follows(*old(self)),
            match r {
                Ok(e) => {
                    &&& pattern_at(old(self).input(), old(self).at())
                        == Ok::<_, Fault>((e@, final(self).at()))
                    &&& old(self).at() < final(self).at()
                },
                Err(e) => pattern_at(old(self).input(), old(self).at())
                    == Err::<(PatternV, int), Fault>(e@),
            },
    {
        let name = match self.expect_ident() {
            Ok(v) => v,
            Err(e) => {
                return Err(e);
            },
        };
        if same(name.as_str(), "_") {
            return Ok(Pattern::Wildcard);
        }
        let bindings = if self.check(&TokKind::LParen) {
            match self.parse_names() {
                Ok(v) => v,
                Err(e) => {
                    return Err(e);
                },
            }
        } else {
            Vec::new()
        };
        let types: Vec<Type> = Vec::new();
        assert(types@ =~= Seq::empty());
        assert(bindings@.len() == 0 ==> names_v(bindings@) =~= Seq::empty());
        Ok(Pattern::Variant { name, bindings, types })
    }

    /// The body of an arm: a block, or one statement on the arm's own line.
    fn parse_arm_body(&mut self) -> (r: Result<Vec<Stmt>, ParseError>)
        requires
            old(self).wf(),
        ensures
            final(self).wf(),
            final(self).follows(*old(self)),
            match r {
                Ok(e) => {
                    &&& arm_body_at(old(self).input(), old(self).at())
                        == Ok::<_, Fault>((block_v(e@), final(self).at()))
                    &&& old(self).at() < final(self).at()
                },
                Err(e) => arm_body_at(old(self).input(), old(self).at())
                    == Err::<(Seq<StmtV>, int), Fault>(e@),
            },
        decreases old(self).input().toks.len() - old(self).at(), 5nat,
    {
        if self.peek().is(&TokKind::Newline) {
            self.parse_block()
        } else {
            let stmt = match self.parse_statement() {
                Ok(v) => v,
                Err(e) => {
                    return Err(e);
                },
            };
            let ghost inner = stmt@;
            let body = vec![stmt];
            assert(block_v(body@) =~= seq![inner]);
            Ok(body)
        }
    }

    fn parse_match(&mut self) -> (r: Result<Stmt, ParseError>)
        requires
            old(self).wf(),
            old(self).input().at(old(self).at()) == TokV::Match,
        ensures
            final(self).wf(),
            final(self).follows(*old(self)),
            match r {
                Ok(e) => {
                    &&& match_at(old(self).input(), old(self).at())
                        == Ok::<_, Fault>((e@, final(self).at()))
                    &&& old(self).at() < final(self).at()
                },
                Err(e) => match_at(old(self).input(), old(self).at())
                    == Err::<(StmtV, int), Fault>(e@),
            },
        decreases old(self).input().toks.len() - old(self).at(), 2nat,
    {
        let ghost c = self.input();
        let ghost start = self.at();
        let line: usize = self.line();
        self.advance();
        let scrutinee = match self.parse_expr_then(TokKind::Colon) {
            Ok(v) => v,
            Err(e) => {
                return Err(e);
            },
        };
        match self.expect(TokKind::Newline) {
            Ok(_) => {},
            Err(e) => {
                return Err(e);
            },
        }
        match self.expect(TokKind::Indent) {
            Ok(_) => {},
            Err(e) => {
                return Err(e);
            },
        }
        let ghost first = self.at();
        let mut arms: Vec<MatchArm> = Vec::new();
        assert(arms_v(arms@) =~= Seq::empty());
        let ghost subject = scrutinee@;
        assert(match_at(c, start) == (match arms_at(c, first, Seq::empty()) {
            Ok((arms, p3)) => Ok((StmtV::Match { scrutinee: subject, arms, line }, p3)),
            Err(e) => Err(e),
        }));
        loop
            invariant
                self.wf(),
                self.follows(*old(self)),
                c == old(self).input(),
                start == old(self).at(),
                c == self.input(),
                start < self.at(),
                subject == scrutinee@,
                match_at(c, start) == (match arms_at(c, first, Seq::empty()) {
                    Ok((arms, p3)) => Ok((StmtV::Match { scrutinee: subject, arms, line }, p3)),
                    Err(e) => Err(e),
                }),
                arms_at(c, self.at(), arms_v(arms@)) == arms_at(c, first, Seq::empty()),
            decreases c.toks.len() - self.at(),
        {
            if self.check(&TokKind::Dedent) {
                if arms.len() == 0 {
                    return Err(self.error(String::from_str("match must have at least one arm")));
                }
                return Ok(Stmt::Match { scrutinee, arms, line });
            }
            let pattern = match self.parse_pattern() {
                Ok(v) => v,
                Err(e) => {
                    return Err(e);
                },
            };
            match self.expect(TokKind::Colon) {
                Ok(_) => {},
                Err(e) => {
                    return Err(e);
                },
            }
            let body = match self.parse_arm_body() {
                Ok(v) => v,
                Err(e) => {
                    return Err(e);
                },
            };
            let arm = MatchArm { pattern, body };
            let ghost before = arms_v(arms@);
            let ghost last = arm@;
            arms.push(arm);
            assert(arms_v(arms@) =~= before.push(last));
        }
    }

    // ----- declarations -------------------------------------------------------------
    /// `name: type`
    fn parse_param(&mut self) -> (r: Result<Param, ParseError>)
        requires
            old(self).wf(),
        ensures
            final(self).wf(),
            final(self).follows(*old(self)),
            match r {
                Ok(e) => {
                    &&& param_at(old(self).input(), old(self).at())
                        == Ok::<_, Fault>((e@, final(self).at()))
                    &&& old(self).at() < final(self).at()
                },
                Err(e) => param_at(old(self).input(), old(self).at())
                    == Err::<(ParamV, int), Fault>(e@),
            },
    {
        let name = match self.expect_ident() {
            Ok(v) => v,
            Err(e) => {
                return Err(e);
            },
        };
        match self.expect(TokKind::Colon) {
            Ok(_) => {},
            Err(e) => {
                return Err(e);
            },
        }
        let ty = match self.parse_type() {
            Ok(v) => v,
            Err(e) => {
                return Err(e);
            },
        };
        Ok(Param { name, ty })
    }

    fn parse_params(&mut self) -> (r: Result<Vec<Param>, ParseError>)
        requires
            old(self).wf(),
        ensures
            final(self).wf(),
            final(self).follows(*old(self)),
            match r {
                Ok(e) => {
                    &&& params_at(old(self).input(), old(self).at(), Seq::empty())
                        == Ok::<_, Fault>((params_v(e@), final(self).at()))
                    &&& old(self).at() < final(self).at()
                },
                Err(e) => params_at(old(self).input(), old(self).at(), Seq::empty())
                    == Err::<(Seq<ParamV>, int), Fault>(e@),
            },
    {
        let ghost c = self.input();
        let ghost start = self.at();
        let mut done: Vec<Param> = Vec::new();
        assert(params_v(done@) =~= Seq::empty());
        loop
            invariant
                self.wf(),
                self.follows(*old(self)),
                c == old(self).input(),
                start == old(self).at(),
                c == self.input(),
                start <= self.at(),
                params_at(c, self.at(), params_v(done@)) == params_at(c, start, Seq::empty()),
            decreases c.toks.len() - self.at(),
        {
            if self.check(&TokKind::RParen) {
                return Ok(done);
            }
            let item = match self.parse_param() {
                Ok(v) => v,
                Err(e) => {
                    return Err(e);
                },
            };
            let ghost before = params_v(done@);
            let ghost last = item@;
            done.push(item);
            assert(params_v(done@) =~= before.push(last));
            if !self.check(&TokKind::Comma) {
                match self.expect(TokKind::RParen) {
                    Ok(_) => {},
                    Err(e) => {
                        return Err(e);
                    },
                }
                return Ok(done);
            }
        }
    }

    fn parse_types(&mut self) -> (r: Result<Vec<Type>, ParseError>)
        requires
            old(self).wf(),
        ensures
            final(self).wf(),
            final(self).follows(*old(self)),
            match r {
                Ok(e) => {
                    &&& types_at(old(self).input(), old(self).at(), Seq::empty())
                        == Ok::<_, Fault>((e@, final(self).at()))
                    &&& old(self).at() < final(self).at()
                },
                Err(e) => types_at(old(self).input(), old(self).at(), Seq::empty())
                    == Err::<(Seq<Type>, int), Fault>(e@),
            },
    {
        let ghost c = self.input();
        let ghost start = self.at();
        let mut done: Vec<Type> = Vec::new();
        assert(done@ =~= Seq::empty());
        loop
            invariant
                self.wf(),
                self.follows(*old(self)),
                c == old(self).input(),
                start == old(self).at(),
                c == self.input(),
                start <= self.at(),
                types_at(c, self.at(), done@) == types_at(c, start, Seq::empty()),
            decreases c.toks.len() - self.at(),
        {
            if self.check(&TokKind::RParen) {
                return Ok(done);
            }
            let item = match self.parse_type() {
                Ok(v) => v,
                Err(e) => {
                    return Err(e);
                },
            };
            let ghost before = done@;
            let ghost last = item;
            done.push(item);
            assert(done@ =~= before.push(last));
            if !self.check(&TokKind::Comma) {
                match self.expect(TokKind::RParen) {
                    Ok(_) => {},
                    Err(e) => {
                        return Err(e);
                    },
                }
                return Ok(done);
            }
        }
    }

    fn parse_function(&mut self) -> (r: Result<Function, ParseError>)
        requires
            old(self).wf(),
            old(self).input().at(old(self).at()) == TokV::Fn,
        ensures
            final(self).wf(),
            final(self).follows(*old(self)),
            match r {
                Ok(e) => {
                    &&& function_at(old(self).input(), old(self).at())
                        == Ok::<_, Fault>((e@, final(self).at()))
                    &&& old(self).at() < final(self).at()
                },
                Err(e) => function_at(old(self).input(), old(self).at())
                    == Err::<(FunctionV, int), Fault>(e@),
            },
    {
        let line: usize = self.line();
        self.advance();
        let recv = if self.check(&TokKind::LParen) {
            let r = match self.parse_param() {
                Ok(v) => v,
                Err(e) => {
                    return Err(e);
                },
            };
            match self.expect(TokKind::RParen) {
                Ok(_) => {},
                Err(e) => {
                    return Err(e);
                },
            }
            Some(r)
        } else {
            None
        };
        let name = match self.expect_ident() {
            Ok(v) => v,
            Err(e) => {
                return Err(e);
            },
        };
        match self.expect(TokKind::LParen) {
            Ok(_) => {},
            Err(e) => {
                return Err(e);
            },
        }
        let params = match self.parse_params() {
            Ok(v) => v,
            Err(e) => {
                return Err(e);
            },
        };
        let ret = match self.parse_return_type() {
            Ok(v) => v,
            Err(e) => {
                return Err(e);
            },
        };
        match self.expect(TokKind::Colon) {
            Ok(_) => {},
            Err(e) => {
                return Err(e);
            },
        }
        let body = match self.parse_block() {
            Ok(v) => v,
            Err(e) => {
                return Err(e);
            },
        };
        Ok(Function { name, recv, params, ret, body, line })
    }

    /// Either `name: type` or a bare scalar type.
    fn parse_extern_param(&mut self) -> (r: Result<Type, ParseError>)
        requires
            old(self).wf(),
        ensures
            final(self).wf(),
            final(self).follows(*old(self)),
            match r {
                Ok(e) => {
                    &&& extern_param_at(old(self).input(), old(self).at())
                        == Ok::<_, Fault>((e, final(self).at()))
                    &&& old(self).at() < final(self).at()
                },
                Err(e) => extern_param_at(old(self).input(), old(self).at())
                    == Err::<(Type, int), Fault>(e@),
            },
    {
        let first = match self.expect_ident() {
            Ok(v) => v,
            Err(e) => {
                return Err(e);
            },
        };
        if self.check(&TokKind::Colon) {
            return self.parse_type();
        }
        match scalar_named(first.as_str()) {
            Some(t) => Ok(t),
            None => Err(self.error(cat3("unknown type `", first.as_str(), "`"))),
        }
    }

    fn parse_extern_params(&mut self) -> (r: Result<(Vec<Type>, bool), ParseError>)
        requires
            old(self).wf(),
        ensures
            final(self).wf(),
            final(self).follows(*old(self)),
            match r {
                Ok(e) => {
                    &&& extern_params_at(old(self).input(), old(self).at(), Seq::empty())
                        == Ok::<_, Fault>(((e.0@, e.1), final(self).at()))
                    &&& old(self).at() < final(self).at()
                },
                Err(e) => extern_params_at(old(self).input(), old(self).at(), Seq::empty())
                    == Err::<((Seq<Type>, bool), int), Fault>(e@),
            },
    {
        let ghost c = self.input();
        let ghost start = self.at();
        let mut done: Vec<Type> = Vec::new();
        assert(done@ =~= Seq::empty());
        loop
            invariant
                self.wf(),
                self.follows(*old(self)),
                c == old(self).input(),
                start == old(self).at(),
                c == self.input(),
                start <= self.at(),
                extern_params_at(c, self.at(), done@) == extern_params_at(c, start, Seq::empty()),
            decreases c.toks.len() - self.at(),
        {
            if self.check(&TokKind::RParen) {
                return Ok((done, false));
            }
            if self.check(&TokKind::Ellipsis) {
                match self.expect(TokKind::RParen) {
                    Ok(_) => {},
                    Err(e) => {
                        return Err(e);
                    },
                }
                return Ok((done, true));
            }
            let ty = match self.parse_extern_param() {
                Ok(v) => v,
                Err(e) => {
                    return Err(e);
                },
            };
            done.push(ty);
            if !self.check(&TokKind::Comma) {
                match self.expect(TokKind::RParen) {
                    Ok(_) => {},
                    Err(e) => {
                        return Err(e);
                    },
                }
                return Ok((done, false));
            }
        }
    }

    /// `extern fn printf(str, ...) -> int`; parameter names are allowed but
    /// optional: `extern fn puts(s: str) -> int`.
    fn parse_extern(&mut self) -> (r: Result<ExternFn, ParseError>)
        requires
            old(self).wf(),
            old(self).input().at(old(self).at()) == TokV::Extern,
        ensures
            final(self).wf(),
            final(self).follows(*old(self)),
            match r {
                Ok(e) => {
                    &&& extern_at(old(self).input(), old(self).at())
                        == Ok::<_, Fault>((e@, final(self).at()))
                    &&& old(self).at() < final(self).at()
                },
                Err(e) => extern_at(old(self).input(), old(self).at())
                    == Err::<(ExternV, int), Fault>(e@),
            },
    {
        let line: usize = self.line();
        self.advance();
        match self.expect(TokKind::Fn) {
            Ok(_) => {},
            Err(e) => {
                return Err(e);
            },
        }
        let name = match self.expect_ident() {
            Ok(v) => v,
            Err(e) => {
                return Err(e);
            },
        };
        match self.expect(TokKind::LParen) {
            Ok(_) => {},
            Err(e) => {
                return Err(e);
            },
        }
        let (params, varargs) = match self.parse_extern_params() {
            Ok(v) => v,
            Err(e) => {
                return Err(e);
            },
        };
        let ret = match self.parse_return_type() {
            Ok(v) => v,
            Err(e) => {
                return Err(e);
            },
        };
        match self.expect(TokKind::Newline) {
            Ok(_) => {},
            Err(e) => {
                return Err(e);
            },
        }
        Ok(ExternFn { name, params, varargs, ret, line })
    }

    /// A keyword, a name, and the opening of an indented body.
    fn parse_header(&mut self) -> (r: Result<String, ParseError>)
        requires
            old(self).wf(),
            old(self).input().at(old(self).at())
                == TokV::Struct || old(self).input().at(old(self).at()) == TokV::Enum,
        ensures
            final(self).wf(),
            final(self).follows(*old(self)),
            match r {
                Ok(e) => {
                    &&& header_at(old(self).input(), old(self).at())
                        == Ok::<_, Fault>((e@, final(self).at()))
                    &&& old(self).at() < final(self).at()
                },
                Err(e) => header_at(old(self).input(), old(self).at())
                    == Err::<(Seq<char>, int), Fault>(e@),
            },
    {
        self.advance();
        let name = match self.expect_ident() {
            Ok(v) => v,
            Err(e) => {
                return Err(e);
            },
        };
        match self.expect(TokKind::Colon) {
            Ok(_) => {},
            Err(e) => {
                return Err(e);
            },
        }
        match self.expect(TokKind::Newline) {
            Ok(_) => {},
            Err(e) => {
                return Err(e);
            },
        }
        match self.expect(TokKind::Indent) {
            Ok(_) => {},
            Err(e) => {
                return Err(e);
            },
        }
        Ok(name)
    }

    /// `struct Name:` NEWLINE INDENT (`field: type` NEWLINE)+ DEDENT
    fn parse_struct(&mut self) -> (r: Result<StructDef, ParseError>)
        requires
            old(self).wf(),
            old(self).input().at(old(self).at()) == TokV::Struct,
        ensures
            final(self).wf(),
            final(self).follows(*old(self)),
            match r {
                Ok(e) => {
                    &&& struct_at(old(self).input(), old(self).at())
                        == Ok::<_, Fault>((e@, final(self).at()))
                    &&& old(self).at() < final(self).at()
                },
                Err(e) => struct_at(old(self).input(), old(self).at())
                    == Err::<(StructV, int), Fault>(e@),
            },
    {
        let ghost c = self.input();
        let ghost start = self.at();
        let line: usize = self.line();
        let name = match self.parse_header() {
            Ok(v) => v,
            Err(e) => {
                return Err(e);
            },
        };
        let ghost first = self.at();
        let mut fields: Vec<Param> = Vec::new();
        assert(params_v(fields@) =~= Seq::empty());
        loop
            invariant
                self.wf(),
                self.follows(*old(self)),
                c == old(self).input(),
                start == old(self).at(),
                c == self.input(),
                start < self.at(),
                header_at(c, start) == Ok::<_, Fault>((name@, first)),
                line == c.line(start),
                fields_at(c, self.at(), name@, params_v(fields@)) == fields_at(
                    c,
                    first,
                    name@,
                    Seq::empty(),
                ),
            decreases c.toks.len() - self.at(),
        {
            if self.check(&TokKind::Dedent) {
                if fields.len() == 0 {
                    return Err(
                        self.error(
                            cat3("struct `", name.as_str(), "` must have at least one field"),
                        ),
                    );
                }
                return Ok(StructDef { name, fields, line });
            }
            let field = match self.expect_ident() {
                Ok(v) => v,
                Err(e) => {
                    return Err(e);
                },
            };
            if has_param_named(&fields, field.as_str()) {
                return Err(
                    self.error(
                        cat5("duplicate field `", field.as_str(), "` in `", name.as_str(), "`"),
                    ),
                );
            }
            match self.expect(TokKind::Colon) {
                Ok(_) => {},
                Err(e) => {
                    return Err(e);
                },
            }
            let ty = match self.parse_type() {
                Ok(v) => v,
                Err(e) => {
                    return Err(e);
                },
            };
            match self.expect(TokKind::Newline) {
                Ok(_) => {},
                Err(e) => {
                    return Err(e);
                },
            }
            let param = Param { name: field, ty };
            let ghost before = params_v(fields@);
            let ghost last = param@;
            fields.push(param);
            assert(params_v(fields@) =~= before.push(last));
        }
    }

    /// A variant: a bare name, or a name and the types of its payload.
    fn parse_variant(&mut self) -> (r: Result<VariantDef, ParseError>)
        requires
            old(self).wf(),
        ensures
            final(self).wf(),
            final(self).follows(*old(self)),
            match r {
                Ok(e) => {
                    &&& variant_at(old(self).input(), old(self).at())
                        == Ok::<_, Fault>((e@, final(self).at()))
                    &&& old(self).at() < final(self).at()
                },
                Err(e) => variant_at(old(self).input(), old(self).at())
                    == Err::<(VariantV, int), Fault>(e@),
            },
    {
        let name = match self.expect_ident() {
            Ok(v) => v,
            Err(e) => {
                return Err(e);
            },
        };
        let fields = if self.check(&TokKind::LParen) {
            match self.parse_types() {
                Ok(v) => v,
                Err(e) => {
                    return Err(e);
                },
            }
        } else {
            Vec::new()
        };
        assert(fields@.len() == 0 ==> fields@ =~= Seq::empty());
        match self.expect(TokKind::Newline) {
            Ok(_) => {},
            Err(e) => {
                return Err(e);
            },
        }
        Ok(VariantDef { name, fields })
    }

    /// `enum Name:` NEWLINE INDENT (variant NEWLINE)+ DEDENT
    fn parse_enum(&mut self) -> (r: Result<EnumDef, ParseError>)
        requires
            old(self).wf(),
            old(self).input().at(old(self).at()) == TokV::Enum,
        ensures
            final(self).wf(),
            final(self).follows(*old(self)),
            match r {
                Ok(e) => {
                    &&& enum_at(old(self).input(), old(self).at())
                        == Ok::<_, Fault>((e@, final(self).at()))
                    &&& old(self).at() < final(self).at()
                },
                Err(e) => enum_at(old(self).input(), old(self).at())
                    == Err::<(EnumV, int), Fault>(e@),
            },
    {
        let ghost c = self.input();
        let ghost start = self.at();
        let line: usize = self.line();
        let name = match self.parse_header() {
            Ok(v) => v,
            Err(e) => {
                return Err(e);
            },
        };
        let ghost first = self.at();
        let mut variants: Vec<VariantDef> = Vec::new();
        assert(variants_v(variants@) =~= Seq::empty());
        loop
            invariant
                self.wf(),
                self.follows(*old(self)),
                c == old(self).input(),
                start == old(self).at(),
                c == self.input(),
                start < self.at(),
                header_at(c, start) == Ok::<_, Fault>((name@, first)),
                line == c.line(start),
                variants_at(c, self.at(), name@, variants_v(variants@)) == variants_at(
                    c,
                    first,
                    name@,
                    Seq::empty(),
                ),
            decreases c.toks.len() - self.at(),
        {
            if self.check(&TokKind::Dedent) {
                if variants.len() == 0 {
                    return Err(
                        self.error(
                            cat3("enum `", name.as_str(), "` must have at least one variant"),
                        ),
                    );
                }
                return Ok(EnumDef { name, variants, line });
            }
            let variant = match self.parse_variant() {
                Ok(v) => v,
                Err(e) => {
                    return Err(e);
                },
            };
            let ghost before = variants_v(variants@);
            let ghost last = variant@;
            variants.push(variant);
            assert(variants_v(variants@) =~= before.push(last));
        }
    }

    /// The program that the rest of the stream spells.
    pub fn parse_program(&mut self) -> (r: Result<Program, ParseError>)
        requires
            old(self).wf(),
        ensures
            final(self).wf(),
            final(self).follows(*old(self)),
            match r {
                Ok(p) => decls_at(old(self).input(), old(self).at(), Program::empty()) == Ok::<
                    _,
                    Fault,
                >(p@),
                Err(e) => decls_at(old(self).input(), old(self).at(), Program::empty()) == Err::<
                    ProgramV,
                    Fault,
                >(e@),
            },
    {
        let ghost c = self.input();
        let ghost start = self.at();
        let mut program = Program::default();
        loop
            invariant
                self.wf(),
                self.follows(*old(self)),
                c == old(self).input(),
                start == old(self).at(),
                c == self.input(),
                start <= self.at(),
                decls_at(c, self.at(), program@) == decls_at(c, start, Program::empty()),
            decreases c.toks.len() - self.at(),
        {
            match self.peek() {
                TokKind::Eof => {
                    return Ok(program);
                },
                TokKind::Extern => {
                    let def = match self.parse_extern() {
                        Ok(v) => v,
                        Err(e) => {
                            return Err(e);
                        },
                    };
                    let ghost before = program@;
                    let ghost last = def@;
                    program.externs.push(def);
                    assert(externs_v(program.externs@) =~= before.externs.push(last));
                    assert(program@ == (ProgramV { externs: before.externs.push(last), ..before }));
                },
                TokKind::Fn => {
                    let def = match self.parse_function() {
                        Ok(v) => v,
                        Err(e) => {
                            return Err(e);
                        },
                    };
                    let ghost before = program@;
                    let ghost last = def@;
                    program.functions.push(def);
                    assert(functions_v(program.functions@) =~= before.functions.push(last));
                    assert(program@
                        == (ProgramV { functions: before.functions.push(last), ..before }));
                },
                TokKind::Struct => {
                    let def = match self.parse_struct() {
                        Ok(v) => v,
                        Err(e) => {
                            return Err(e);
                        },
                    };
                    if has_struct_named(&program.structs, def.name.as_str()) {
                        return Err(self.error(cat3("duplicate struct `", def.name.as_str(), "`")));
                    }
                    let ghost before = program@;
                    let ghost last = def@;
                    program.structs.push(def);
                    assert(structs_v(program.structs@) =~= before.structs.push(last));
                    assert(program@ == (ProgramV { structs: before.structs.push(last), ..before }));
                },
                TokKind::Enum => {
                    let def = match self.parse_enum() {
                        Ok(v) => v,
                        Err(e) => {
                            return Err(e);
                        },
                    };
                    if has_enum_named(&program.enums, def.name.as_str()) {
                        return Err(self.error(cat3("duplicate enum `", def.name.as_str(), "`")));
                    }
                    let ghost before = program@;
                    let ghost last = def@;
                    program.enums.push(def);
                    assert(enums_v(program.enums@) =~= before.enums.push(last));
                    assert(program@ == (ProgramV { enums: before.enums.push(last), ..before }));
                },
                other => {
                    let found = other.to_text();
                    return Err(
                        self.error(
                            cat2(
                                "expected `fn`, `struct` or `extern` at top level, found ",
                                found.as_str(),
                            ),
                        ),
                    );
                },
            }
        }
    }
}

/// Every interpolated literal of a stream is shorter than the stream's bound.
proof fn lemma_fstring_bound(toks: Seq<TokenV>, i: int)
    requires
        0 <= i < toks.len(),
    ensures
        toks[i].kind matches TokV::FStr(s) ==> s.len() < fstring_bound(toks),
    decreases toks.len(),
{
    if i < toks.len() - 1 {
        lemma_fstring_bound(toks.drop_last(), i);
    }
}

/// A stream whose interpolated literals are all shorter than `n` has a bound of
/// at most `n`.
proof fn lemma_fstring_bound_le(toks: Seq<TokenV>, n: nat)
    requires
        forall|k: int|
            0 <= k < toks.len() ==> ((#[trigger] toks[k]).kind matches TokV::FStr(s) ==> s.len()
                < n),
    ensures
        fstring_bound(toks) <= n,
    decreases toks.len(),
{
    if toks.len() > 0 {
        let less = toks.drop_last();
        assert forall|k: int| 0 <= k < less.len()
            implies ((#[trigger] less[k]).kind matches TokV::FStr(
            s,
        ) ==> s.len() < n) by {
            assert(less[k] == toks[k]);
        }
        lemma_fstring_bound_le(less, n);
        assert(toks[toks.len() - 1] == toks.last());
    }
}

// ----- interpolated strings -------------------------------------------------------------
/// Replaces every span of a tree.
fn respan(e: &mut Expr, span: Span)
    ensures
        final(e)@ == respanned(old(e)@, span),
    decreases *old(e),
{
    e.span = span;
    match &mut e.kind {
        ExprKind::Unary(_, a) => respan(a, span),
        ExprKind::Binary(a, _, b) => {
            respan(a, span);
            respan(b, span);
        },
        ExprKind::Call(_, args) => respan_all(args, span),
        ExprKind::MethodCall(r, _, args) => {
            respan(r, span);
            respan_all(args, span);
        },
        ExprKind::ArrayLit(args) => respan_all(args, span),
        ExprKind::Index(a, b) => {
            respan(a, span);
            respan(b, span);
        },
        ExprKind::Field(a, _) => respan(a, span),
        _ => {},
    }
}

/// Replaces every span of some trees.
fn respan_all(es: &mut Vec<Expr>, span: Span)
    ensures
        exprs_v(final(es)@) == all_respanned(exprs_v(old(es)@), span),
    decreases *old(es),
{
    let ghost before = es@;
    let mut i: usize = 0;
    while i < es.len()
        invariant
            i <= es@.len(),
            es@.len() == before.len(),
            before == old(es)@,
            forall|j: int| i <= j < es@.len() ==> es@[j] == before[j],
            forall|j: int| 0 <= j < i ==> (#[trigger] es@[j])@ == respanned(before[j]@, span),
        decreases es@.len() - i,
    {
        assert(decreases_to!(*old(es) => before[i as int]));
        respan(&mut es[i], span);
        i = i + 1;
    }
    assert(exprs_v(es@) =~= all_respanned(exprs_v(before), span));
}

/// Whether Unicode counts a character as white space.
fn space_here(c: char) -> (b: bool)
    ensures
        b == is_space(c),
{
    let n: u32 = c as u32;
    (0x09 <= n && n <= 0x0d) || n == 0x20 || n == 0x85 || n == 0xa0 || n == 0x1680 || (0x2000 <= n
        && n <= 0x200a) || n == 0x2028 || n == 0x2029 || n == 0x202f || n == 0x205f || n == 0x3000
}

/// Whether `chars[from..to]` holds nothing but white space.
fn only_space(chars: &Vec<char>, from: usize, to: usize) -> (b: bool)
    requires
        from <= to <= chars@.len(),
    ensures
        b == all_space(chars@.subrange(from as int, to as int)),
{
    let ghost text = chars@.subrange(from as int, to as int);
    let mut i: usize = from;
    while i < to
        invariant
            from <= i <= to <= chars@.len(),
            text == chars@.subrange(from as int, to as int),
            forall|k: int| 0 <= k < i - from ==> is_space(#[trigger] text[k]),
        decreases to - i,
    {
        assert(text[i - from] == chars@[i as int]);
        if !space_here(chars[i]) {
            return false;
        }
        i = i + 1;
    }
    true
}

/// The first closing brace at or after `from`.
fn brace_end_here(chars: &Vec<char>, from: usize) -> (r: Option<usize>)
    ensures
        match r {
            Some(e) => brace_end(chars@, from as int) == Some(e as int) && from <= e < chars@.len(),
            None => brace_end(chars@, from as int) is None,
        },
{
    let mut i: usize = from;
    while i < chars.len()
        invariant
            from <= i,
            brace_end(chars@, from as int) == brace_end(chars@, i as int),
        decreases chars@.len() - i,
    {
        if chars[i] == '}' {
            return Some(i);
        }
        i = i + 1;
    }
    None
}

/// An error inside an interpolated string.
fn fstring_error(span: Span, message: &str) -> (e: ParseError)
    ensures
        e@ == in_fstring(span, message@),
{
    ParseError { span, message: cat2("in f-string: ", message) }
}

/// The expression that the text between two braces spells, its spans replaced
/// by `span`.
fn interpolated(inner: &str, span: Span, Ghost(outer): Ghost<Seq<char>>)
    -> (r: Result<Expr, ParseError>)
    requires
        inner@.len() + 2 <= outer.len(),
    ensures
        match r {
            Ok(e) => inner_expr(inner@, span) == Ok::<_, Fault>(e@),
            Err(e) => inner_expr(inner@, span) == Err::<ExprV, Fault>(e@),
        },
    decreases outer.len(), 0nat, 25nat,
{
    proof {
        law_stream_ends_once(inner@);
    }
    let tokens = match lex(inner) {
        Ok(v) => v,
        Err(e) => {
            return Err(fstring_error(span, e.message.as_str()));
        },
    };
    let ghost toks = tokens_v(tokens@);
    proof {
        assert(toks[toks.len() - 1] == toks.last());
        assert forall|k: int| 0 <= k < toks.len()
            implies ((#[trigger] toks[k]).kind matches TokV::FStr(
            s,
        ) ==> s.len() < inner@.len()) by {
            if k < toks.len() - 1 {
                assert(crate::lexer::ordinary(toks[k], inner@.len()));
            }
        }
        lemma_fstring_bound_le(toks, inner@.len());
    }
    let mut sub = Parser::new(tokens);
    let mut value = match sub.parse_expression() {
        Ok(v) => v,
        Err(e) => {
            return Err(fstring_error(span, e.message.as_str()));
        },
    };
    if sub.peek().is(&TokKind::Newline) || sub.peek().is(&TokKind::Eof) {
        // The snippet was lexed standalone; point its spans at the whole
        // literal so later errors land on the right source.
        respan(&mut value, span);
        Ok(value)
    } else {
        let found = sub.peek().to_text();
        Err(
            fstring_error(
                span,
                cat3("unexpected ", found.as_str(), " after expression").as_str(),
            ),
        )
    }
}

/// Desugar `f"a {x} b"` into `"a " + str(x) + " b"`. `{{` / `}}` escape
/// literal braces. Each `{...}` is re-lexed and parsed as an expression;
/// quotes inside must be escaped (`\"`) because the f-string body ends at
/// the first bare quote.
fn desugar_fstring(s: &str, span: Span) -> (r: Result<Expr, ParseError>)
    ensures
        match pieces(s@, 0, Seq::empty(), Seq::empty(), span) {
            Ok(parts) => r matches Ok(e) && e@ == joined(parts, parts.len(), span),
            Err(f) => r matches Err(e) && e@ == f,
        },
    decreases s@.len(), 0nat, 40nat,
{
    let chars = chars_of(s);
    let mut parts: Vec<Expr> = Vec::new();
    let mut lit = String::new();
    let mut i: usize = 0;
    assert(exprs_v(parts@) =~= Seq::empty());
    assert(lit@ =~= Seq::empty());
    while i < chars.len()
        invariant
            chars@ == s@,
            i <= chars@.len(),
            pieces(s@, i as int, lit@, exprs_v(parts@), span) == pieces(
                s@,
                0,
                Seq::empty(),
                Seq::empty(),
                span,
            ),
        decreases chars@.len() - i,
    {
        let c: char = chars[i];
        if c == '{' && i + 1 < chars.len() && chars[i + 1] == '{' {
            lit.push('{');
            i = i + 2;
        } else if c == '}' && i + 1 < chars.len() && chars[i + 1] == '}' {
            lit.push('}');
            i = i + 2;
        } else if c == '{' {
            let e: usize = match brace_end_here(&chars, i + 1) {
                Some(e) => e,
                None => {
                    return Err(fstring_error(span, "unterminated `{`"));
                },
            };
            if only_space(&chars, i + 1, e) {
                return Err(fstring_error(span, "empty `{}` interpolation"));
            }
            let inner = text_of(&chars, i + 1, e);
            let value = match interpolated(inner.as_str(), span, Ghost(s@)) {
                Ok(v) => v,
                Err(e) => {
                    return Err(e);
                },
            };
            let ghost before = exprs_v(parts@);
            let ghost text = lit@;
            let ghost shown = value@;
            if chars_of(lit.as_str()).len() > 0 {
                parts.push(Expr::new(ExprKind::Str(lit), span));
                lit = String::new();
            }
            assert(exprs_v(parts@) =~= flushed(before, text, span));
            let args = vec![value];
            assert(exprs_v(args@) =~= seq![shown]);
            parts.push(Expr::new(ExprKind::Call(String::from_str("str"), args), span));
            assert(exprs_v(parts@) =~= flushed(before, text, span).push(
                node(KindV::Call("str"@, seq![shown]), span),
            ));
            assert(lit@ =~= Seq::empty());
            i = e + 1;
        } else if c == '}' {
            return Err(fstring_error(span, "unmatched `}` (use `}}` for a literal)"));
        } else {
            lit.push(c);
            i = i + 1;
        }
    }
    if chars_of(lit.as_str()).len() > 0 || parts.len() == 0 {
        let ghost before = exprs_v(parts@);
        let ghost text = lit@;
        parts.push(Expr::new(ExprKind::Str(lit), span));
        assert(exprs_v(parts@) =~= before.push(node(KindV::Str(text), span)));
    }
    let ghost all = exprs_v(parts@);
    let ghost trees = parts@;
    let mut acc = parts.remove(0);
    let ghost rest = parts@;
    for p in it: parts
        invariant
            it.seq() == rest,
            rest == trees.remove(0),
            trees.len() > 0,
            all == exprs_v(trees),
            acc@ == joined(all, (it.index() + 1) as nat, span),
    {
        assert(p@ == all[it.index() + 1]);
        acc = Expr::new(ExprKind::Binary(Box::new(acc), BinOp::Add, Box::new(p)), span);
    }
    Ok(acc)
}

// ----- pieces of types and loops ----------------------------------------------------------
/// The scalar type that a name stands for.
fn scalar_named(name: &str) -> (t: Option<Type>)
    ensures
        t == scalar_type(name@),
{
    if same(name, "int") {
        Some(Type::Int)
    } else if same(name, "float") {
        Some(Type::Float)
    } else if same(name, "bool") {
        Some(Type::Bool)
    } else if same(name, "str") {
        Some(Type::Str)
    } else {
        None
    }
}

/// The array type over `elem`, where its dimensions can still be counted.
pub fn nested_array(elem: Type) -> (t: Option<Type>)
    ensures
        t == checked_array(elem),
{
    match elem {
        Type::Array(_, 255) => None,
        _ => Type::array_of(elem),
    }
}

/// The loop that a variable, what it runs over and a body make.
fn make_for(var: String, iterable: Expr, body: Vec<Stmt>, line: usize) -> (r: Result<
    Stmt,
    ParseError,
>)
    ensures
        match r {
            Ok(s) => for_stmt(var@, iterable@, block_v(body@), line) == Ok::<_, Fault>(s@),
            Err(e) => for_stmt(var@, iterable@, block_v(body@), line) == Err::<StmtV, Fault>(e@),
        },
{
    let is_range = match &iterable.kind {
        ExprKind::Call(name, _) => same(name.as_str(), "range"),
        _ => false,
    };
    if !is_range {
        return Ok(Stmt::ForEach { var, iterable, body, line });
    }
    let span = iterable.span;
    let mut args = match iterable.kind {
        ExprKind::Call(_, args) => args,
        _ => Vec::new(),
    };
    let ghost given = exprs_v(args@);
    let n: usize = args.len();
    if n != 1 && n != 2 {
        return Err(
            ParseError {
                span,
                message: cat2("range takes 1 or 2 arguments, got ", dec_usize(n).as_str()),
            },
        );
    }
    let end = args.remove(n - 1);
    let start = if n == 2 {
        args.remove(0)
    } else {
        Expr::new(ExprKind::Int(0), span)
    };
    assert(end@ == given[n - 1]);
    Ok(Stmt::For { var, start, end, body, line })
}

fn has_param_named(params: &Vec<Param>, name: &str) -> (b: bool)
    ensures
        b == has_param(params_v(params@), name@),
{
    let mut i: usize = 0;
    while i < params.len()
        invariant
            i <= params@.len(),
            forall|k: int| 0 <= k < i ==> (#[trigger] params_v(params@)[k]).name != name@,
        decreases params@.len() - i,
    {
        assert(params_v(params@)[i as int].name == params@[i as int].name@);
        if same(params[i].name.as_str(), name) {
            return true;
        }
        i = i + 1;
    }
    false
}

fn has_struct_named(structs: &Vec<StructDef>, name: &str) -> (b: bool)
    ensures
        b == has_struct(structs_v(structs@), name@),
{
    let mut i: usize = 0;
    while i < structs.len()
        invariant
            i <= structs@.len(),
            forall|k: int| 0 <= k < i ==> (#[trigger] structs_v(structs@)[k]).name != name@,
        decreases structs@.len() - i,
    {
        assert(structs_v(structs@)[i as int].name == structs@[i as int].name@);
        if same(structs[i].name.as_str(), name) {
            return true;
        }
        i = i + 1;
    }
    false
}

fn has_enum_named(enums: &Vec<EnumDef>, name: &str) -> (b: bool)
    ensures
        b == has_enum(enums_v(enums@), name@),
{
    let mut i: usize = 0;
    while i < enums.len()
        invariant
            i <= enums@.len(),
            forall|k: int| 0 <= k < i ==> (#[trigger] enums_v(enums@)[k]).name != name@,
        decreases enums@.len() - i,
    {
        assert(enums_v(enums@)[i as int].name == enums@[i as int].name@);
        if same(enums[i].name.as_str(), name) {
            return true;
        }
        i = i + 1;
    }
    false
}

/// Lex and parse a source text.
pub fn parse(source: &str) -> (r: Result<Program, Diagnostic>)
    ensures
        match r {
            Ok(p) => program_of(source@) == Ok::<_, Fault>(p@),
            Err(d) => {
                &&& program_of(source@) matches Err(f) && d.span == f.span && d.message@
                    == f.message
                &&& d.phase@ == (if lexed(source@) is Err {
                    "lex"@
                } else {
                    "parse"@
                })
            },
        },
{
    proof {
        law_stream_ends_once(source@);
    }
    let tokens = match lex(source) {
        Ok(tokens) => tokens,
        Err(e) => {
            return Err(e.into_diagnostic());
        },
    };
    let mut parser = Parser::new(tokens);
    match parser.parse_program() {
        Ok(p) => Ok(p),
        Err(e) => Err(e.into_diagnostic()),
    }
}

} // verus!
