//! Parsed programs name only structs and enums that they declare, and number
//! them in the order of their declarations.
use vstd::prelude::*;
use crate::ast::{ArmV, ExprV, KindV, ParamV, ProgramV, StmtV, Type, VariantV};
use crate::diag::Span;
use crate::grammar::{
    all_respanned, arm_body_at, arms_at, atom_at, block_at, chain, chain_op, compare_op, declared,
    decls_at, enum_at, expr_at, expr_then, extern_at, extern_param_at, extern_params_at, fields_at,
    find_name, flushed, for_at, fstring_bound, function_at, has_enum, has_struct, header_at, if_at,
    inner_expr, input_of, items, joined, let_at, match_at, named_type, names_at, param_at,
    params_at, pattern_at, pieces, program_of, respanned, return_type_at, simple_at, stmt_at,
    stmts_at, struct_at, suffixes, type_at, types_at, variant_at, variants_at, Input,
};
use crate::lexer::{law_stream_ends_once, lexed, TokV};
use crate::lowering::{enum_names, struct_names};
use crate::typing::{
    all_known, arm_known, arms_known, block_known, enum_known, enums_known, expr_known, exprs_known,
    function_known, kind_known, known, params_known, program_known, stmt_known, structs_known,
};

verus! {

/// Between two positions no struct or enum declaration begins.
pub open spec fn clean(c: Input, p: int, p1: int) -> bool {
    &&& 0 <= p <= p1 < c.toks.len()
    &&& forall|q: int|
        p <= q < p1 ==> (#[trigger] c.toks[q]).kind != TokV::Struct && c.toks[q].kind != TokV::Enum
}

/// A stream that ends in the end of the file, and a position in it.
pub open spec fn placed(c: Input, p: int) -> bool {
    &&& 0 <= p < c.toks.len()
    &&& c.toks.last().kind == TokV::Eof
}

// ----- expressions ------------------------------------------------------------------------
pub(crate) proof fn lemma_expr(c: Input, ne: nat, p: int, n: nat)
    requires
        placed(c, p),
    ensures
        expr_at(c, p, n) matches Ok((e, p1)) ==> p < p1 && clean(c, p, p1) && expr_known(ne, e),
    decreases fstring_bound(c.toks), c.toks.len() - p, n + 10,
{
    if n == 0 {
        lemma_atom(c, ne, p);
        if let Ok((e, p1)) = atom_at(c, p) {
            lemma_suffixes(c, ne, p1, e);
        }
    } else if n == 1 || n == 5 {
        if c.at(p) == (if n == 1 {
            TokV::Minus
        } else {
            TokV::Not
        }) {
            lemma_expr(c, ne, p + 1, n);
        } else {
            lemma_expr(c, ne, p, (n - 1) as nat);
        }
    } else if n == 4 {
        lemma_expr(c, ne, p, 3);
        if let Ok((a, p1)) = expr_at(c, p, 3) {
            if compare_op(c.at(p1)) is Some {
                lemma_expr(c, ne, p1 + 1, 3);
            }
        }
    } else {
        lemma_expr(c, ne, p, (n - 1) as nat);
        if let Ok((a, p1)) = expr_at(c, p, (n - 1) as nat) {
            lemma_chain(c, ne, p1, n, a);
        }
    }
}

proof fn lemma_chain(c: Input, ne: nat, p: int, n: nat, a: ExprV)
    requires
        placed(c, p),
        expr_known(ne, a),
    ensures
        chain(c, p, n, a) matches Ok((e, p1)) ==> clean(c, p, p1) && expr_known(ne, e),
    decreases fstring_bound(c.toks), c.toks.len() - p, n + 10,
{
    if let Some(op) = chain_op(n, c.at(p)) {
        if n > 0 {
            lemma_expr(c, ne, p + 1, (n - 1) as nat);
            if let Ok((b, p1)) = expr_at(c, p + 1, (n - 1) as nat) {
                let e = crate::grammar::binary(a, op, b, c.span(p));
                assert(kind_known(ne, e.kind));
                lemma_chain(c, ne, p1, n, e);
            }
        }
    }
}

proof fn lemma_suffixes(c: Input, ne: nat, p: int, e: ExprV)
    requires
        placed(c, p),
        expr_known(ne, e),
    ensures
        suffixes(c, p, e) matches Ok((e1, p1)) ==> clean(c, p, p1) && expr_known(ne, e1),
    decreases fstring_bound(c.toks), c.toks.len() - p, 9nat,
{
    match c.at(p) {
        TokV::LBracket => {
            lemma_expr(c, ne, p + 1, 7);
            if let Ok((i, p1)) = expr_at(c, p + 1, 7) {
                if let Ok(p2) = c.expect(p1, TokV::RBracket) {
                    let e2 = crate::grammar::node(
                        KindV::Index(Box::new(e), Box::new(i)),
                        c.span(p),
                    );
                    assert(kind_known(ne, e2.kind));
                    lemma_suffixes(c, ne, p2, e2);
                }
            }
        },
        TokV::Dot => {
            if let Ok((name, p1)) = c.ident(p + 1) {
                if c.at(p1) == TokV::LParen {
                    lemma_items(c, ne, p1 + 1, TokV::RParen, Seq::empty());
                    if let Ok((args, p2)) = items(c, p1 + 1, TokV::RParen, Seq::empty()) {
                        let e2 = crate::grammar::node(
                            KindV::MethodCall(Box::new(e), name, args),
                            c.span(p),
                        );
                        assert(kind_known(ne, e2.kind));
                        lemma_suffixes(c, ne, p2, e2);
                    }
                } else {
                    let e2 = crate::grammar::node(KindV::Field(Box::new(e), name), c.span(p));
                    assert(kind_known(ne, e2.kind));
                    lemma_suffixes(c, ne, p1, e2);
                }
            }
        },
        _ => {},
    }
}

proof fn lemma_items(c: Input, ne: nat, p: int, close: TokV, done: Seq<ExprV>)
    requires
        placed(c, p),
        exprs_known(ne, done),
        close == TokV::RParen || close == TokV::RBracket,
    ensures
        items(c, p, close, done) matches Ok((es, p1)) ==> p < p1 && clean(c, p, p1) && exprs_known(
            ne,
            es,
        ),
    decreases fstring_bound(c.toks), c.toks.len() - p, 20nat,
{
    if c.at(p) != close {
        lemma_expr(c, ne, p, 7);
        if let Ok((e, p1)) = expr_at(c, p, 7) {
            let more = done.push(e);
            assert forall|i: int| 0 <= i < more.len()
                implies expr_known(ne, #[trigger] more[i]) by {
                if i < done.len() {
                    assert(more[i] == done[i]);
                }
            }
            if c.at(p1) == TokV::Comma {
                lemma_items(c, ne, p1 + 1, close, more);
            }
        }
    }
}

proof fn lemma_atom(c: Input, ne: nat, p: int)
    requires
        placed(c, p),
    ensures
        atom_at(c, p) matches Ok((e, p1)) ==> p < p1 && clean(c, p, p1) && expr_known(ne, e),
    decreases fstring_bound(c.toks), c.toks.len() - p, 8nat,
{
    match c.at(p) {
        TokV::FStr(s) => {
            if s.len() < fstring_bound(c.toks) {
                let span = c.span(p);
                lemma_pieces(s, ne, 0, Seq::empty(), Seq::empty(), span);
                if let Ok(parts) = pieces(s, 0, Seq::empty(), Seq::empty(), span) {
                    lemma_joined(ne, parts, parts.len(), span);
                }
            }
        },
        TokV::LParen => {
            lemma_expr(c, ne, p + 1, 7);
        },
        TokV::LBracket => {
            lemma_items(c, ne, p + 1, TokV::RBracket, Seq::empty());
            if let Ok((es, p1)) = items(c, p + 1, TokV::RBracket, Seq::empty()) {
                assert(kind_known(ne, KindV::ArrayLit(es)));
            }
        },
        TokV::Ident(name) => {
            if c.at(p + 1) == TokV::LParen {
                lemma_items(c, ne, p + 2, TokV::RParen, Seq::empty());
                if let Ok((args, p1)) = items(c, p + 2, TokV::RParen, Seq::empty()) {
                    assert(kind_known(ne, KindV::Call(name, args)));
                }
            } else {
                assert(kind_known(ne, KindV::Var(name)));
            }
        },
        TokV::Int(n) => {
            assert(kind_known(ne, KindV::Int(n)));
        },
        TokV::Float(s) => {
            assert(kind_known(ne, KindV::Float(s)));
        },
        TokV::Str(s) => {
            assert(kind_known(ne, KindV::Str(s)));
        },
        TokV::True => {
            assert(kind_known(ne, KindV::Bool(true)));
        },
        TokV::False => {
            assert(kind_known(ne, KindV::Bool(false)));
        },
        _ => {},
    }
}

proof fn lemma_pieces(
    s: Seq<char>,
    ne: nat,
    i: int,
    lit: Seq<char>,
    parts: Seq<ExprV>,
    span: Span,
)
    requires
        exprs_known(ne, parts),
    ensures
        pieces(s, i, lit, parts, span) matches Ok(all) ==> exprs_known(ne, all) && all.len() > 0,
    decreases s.len(), s.len() - i, 30nat,
{
    assert(kind_known(ne, KindV::Str(lit)));
    let plain = crate::grammar::node(KindV::Str(lit), span);
    assert(expr_known(ne, plain));
    if i < 0 || i >= s.len() {
        lemma_push(ne, parts, plain);
    } else if i + 1 < s.len() && s[i] == '{' && s[i + 1] == '{' {
        lemma_pieces(s, ne, i + 2, lit.push('{'), parts, span);
    } else if i + 1 < s.len() && s[i] == '}' && s[i + 1] == '}' {
        lemma_pieces(s, ne, i + 2, lit.push('}'), parts, span);
    } else if s[i] == '{' {
        if let Some(e) = crate::grammar::brace_end(s, i + 1) {
            let inner = s.subrange(i + 1, e);
            if !crate::grammar::all_space(inner) && i < e < s.len() {
                lemma_inner(inner, ne, span);
                if let Ok(value) = inner_expr(inner, span) {
                    lemma_push(ne, parts, plain);
                    let shown = crate::grammar::node(KindV::Call("str"@, seq![value]), span);
                    assert(exprs_known(ne, seq![value]));
                    assert(kind_known(ne, shown.kind));
                    lemma_push(ne, flushed(parts, lit, span), shown);
                    lemma_pieces(
                        s,
                        ne,
                        e + 1,
                        Seq::empty(),
                        flushed(parts, lit, span).push(shown),
                        span,
                    );
                }
            }
        }
    } else if s[i] != '}' {
        lemma_pieces(s, ne, i + 1, lit.push(s[i]), parts, span);
    }
}

proof fn lemma_push(ne: nat, es: Seq<ExprV>, e: ExprV)
    requires
        exprs_known(ne, es),
        expr_known(ne, e),
    ensures
        exprs_known(ne, es.push(e)),
{
    let more = es.push(e);
    assert forall|i: int| 0 <= i < more.len() implies expr_known(ne, #[trigger] more[i]) by {
        if i < es.len() {
            assert(more[i] == es[i]);
        }
    }
}

proof fn lemma_inner(inner: Seq<char>, ne: nat, span: Span)
    ensures
        inner_expr(inner, span) matches Ok(e) ==> expr_known(ne, e),
    decreases inner.len() + 1, 0nat, 0nat,
{
    if let Ok(toks) = lexed(inner) {
        let sub = input_of(toks);
        law_stream_ends_once(inner);
        if fstring_bound(sub.toks) <= inner.len() {
            lemma_expr(sub, ne, 0, 7);
            if let Ok((value, p)) = expr_at(sub, 0, 7) {
                lemma_respanned(ne, value, span);
            }
        }
    }
}

proof fn lemma_joined(ne: nat, parts: Seq<ExprV>, n: nat, span: Span)
    requires
        exprs_known(ne, parts),
        0 < n <= parts.len(),
    ensures
        expr_known(ne, joined(parts, n, span)),
    decreases n,
{
    if n > 1 {
        lemma_joined(ne, parts, (n - 1) as nat, span);
        assert(kind_known(ne, joined(parts, n, span).kind));
    }
}

proof fn lemma_respanned(ne: nat, e: ExprV, span: Span)
    requires
        expr_known(ne, e),
    ensures
        expr_known(ne, respanned(e, span)),
    decreases e,
{
    assert(kind_known(ne, e.kind));
    match e.kind {
        KindV::Unary(op, a) => {
            lemma_respanned(ne, *a, span);
        },
        KindV::Binary(a, op, b) => {
            lemma_respanned(ne, *a, span);
            lemma_respanned(ne, *b, span);
        },
        KindV::Call(name, args) => {
            lemma_all_respanned(ne, args, span);
        },
        KindV::MethodCall(r, name, args) => {
            lemma_respanned(ne, *r, span);
            lemma_all_respanned(ne, args, span);
        },
        KindV::ArrayLit(es) => {
            lemma_all_respanned(ne, es, span);
        },
        KindV::Index(a, b) => {
            lemma_respanned(ne, *a, span);
            lemma_respanned(ne, *b, span);
        },
        KindV::Field(a, name) => {
            lemma_respanned(ne, *a, span);
        },
        _ => {},
    }
    assert(kind_known(ne, respanned(e, span).kind));
}

proof fn lemma_all_respanned(ne: nat, s: Seq<ExprV>, span: Span)
    requires
        exprs_known(ne, s),
    ensures
        exprs_known(ne, all_respanned(s, span)),
    decreases s,
{
    let all = all_respanned(s, span);
    assert forall|i: int| 0 <= i < all.len() implies expr_known(ne, #[trigger] all[i]) by {
        assert(expr_known(ne, s[i]));
        lemma_respanned(ne, s[i], span);
    }
}

// ----- types --------------------------------------------------------------------------------
proof fn lemma_find_name(names: Seq<Seq<char>>, name: Seq<char>, i: int)
    requires
        0 <= i,
    ensures
        find_name(names, name, i) matches Some(k) ==> i <= k < names.len() && names[k] == name,
        find_name(names, name, i) is None ==> forall|k: int|
            i <= k < names.len() ==> #[trigger] names[k] != name,
    decreases names.len() - i,
{
    if i < names.len() && names[i] != name {
        lemma_find_name(names, name, i + 1);
    }
}

pub(crate) proof fn lemma_type(c: Input, p: int)
    requires
        placed(c, p),
    ensures
        type_at(c, p) matches Ok((t, p1)) ==> p < p1 && clean(c, p, p1) && known(
            c.structs.len(),
            c.enums.len(),
            t,
        ),
    decreases c.toks.len() - p,
{
    if c.at(p) == TokV::LBracket {
        lemma_type(c, p + 1);
    } else if let Ok((name, p1)) = c.ident(p) {
        lemma_find_name(c.structs, name, 0);
        lemma_find_name(c.enums, name, 0);
    }
}

pub(crate) proof fn lemma_return_type(c: Input, p: int)
    requires
        placed(c, p),
    ensures
        return_type_at(c, p) matches Ok((t, p1)) ==> clean(c, p, p1) && known(
            c.structs.len(),
            c.enums.len(),
            t,
        ),
{
    if c.at(p) == TokV::Arrow {
        lemma_type(c, p + 1);
    }
}

// ----- statements ---------------------------------------------------------------------------
pub(crate) proof fn lemma_expr_then(c: Input, p: int, k: TokV)
    requires
        placed(c, p),
        k == TokV::Newline || k == TokV::Colon,
    ensures
        expr_then(c, p, k) matches Ok((e, p1)) ==> p < p1 && clean(c, p, p1) && expr_known(
            c.enums.len(),
            e,
        ),
{
    lemma_expr(c, c.enums.len(), p, 7);
}

proof fn lemma_simple(c: Input, p: int)
    requires
        placed(c, p),
    ensures
        simple_at(c, p) matches Ok((s, p1)) ==> p < p1 && clean(c, p, p1) && stmt_known(
            c.structs.len(),
            c.enums.len(),
            s,
        ),
{
    let ne = c.enums.len();
    lemma_expr(c, ne, p, 7);
    if let Ok((e, p1)) = expr_at(c, p, 7) {
        assert(kind_known(ne, e.kind));
        if c.at(p1) == TokV::Assign {
            lemma_expr_then(c, p1 + 1, TokV::Newline);
        }
    }
}

proof fn lemma_let(c: Input, p: int)
    requires
        placed(c, p),
        c.at(p) == TokV::Let,
    ensures
        let_at(c, p) matches Ok((s, p1)) ==> p < p1 && clean(c, p, p1) && stmt_known(
            c.structs.len(),
            c.enums.len(),
            s,
        ),
{
    if let Ok((name, p1)) = c.ident(p + 1) {
        if c.at(p1) == TokV::Colon {
            lemma_type(c, p1 + 1);
            if let Ok((t, p2)) = type_at(c, p1 + 1) {
                if let Ok(p3) = c.expect(p2, TokV::Assign) {
                    lemma_expr_then(c, p3, TokV::Newline);
                }
            }
        } else if let Ok(p3) = c.expect(p1, TokV::Assign) {
            lemma_expr_then(c, p3, TokV::Newline);
        }
    }
}

pub(crate) proof fn lemma_stmt(c: Input, p: int)
    requires
        placed(c, p),
    ensures
        stmt_at(c, p) matches Ok((s, p1)) ==> p < p1 && clean(c, p, p1) && stmt_known(
            c.structs.len(),
            c.enums.len(),
            s,
        ),
    decreases c.toks.len() - p, 3nat,
{
    match c.at(p) {
        TokV::Let => {
            lemma_let(c, p);
        },
        TokV::Return => {
            if c.at(p + 1) != TokV::Newline {
                lemma_expr_then(c, p + 1, TokV::Newline);
            }
        },
        TokV::If => {
            lemma_if(c, p);
        },
        TokV::For => {
            lemma_for(c, p);
        },
        TokV::Match => {
            lemma_match(c, p);
        },
        TokV::While => {
            lemma_expr_then(c, p + 1, TokV::Colon);
            if let Ok((cond, p1)) = expr_then(c, p + 1, TokV::Colon) {
                lemma_block(c, p1);
            }
        },
        TokV::Ident(_) => {
            lemma_simple(c, p);
        },
        _ => {},
    }
}

pub(crate) proof fn lemma_block(c: Input, p: int)
    requires
        placed(c, p),
    ensures
        block_at(c, p) matches Ok((b, p1)) ==> p < p1 && clean(c, p, p1) && block_known(
            c.structs.len(),
            c.enums.len(),
            b,
        ),
    decreases c.toks.len() - p, 1nat,
{
    if let Ok(p1) = c.expect2(p, TokV::Newline, TokV::Indent) {
        lemma_stmts(c, p1, Seq::empty());
    }
}

proof fn lemma_stmts(c: Input, p: int, done: Seq<StmtV>)
    requires
        placed(c, p),
        block_known(c.structs.len(), c.enums.len(), done),
    ensures
        stmts_at(c, p, done) matches Ok((b, p1)) ==> p < p1 && clean(c, p, p1) && block_known(
            c.structs.len(),
            c.enums.len(),
            b,
        ),
    decreases c.toks.len() - p, 4nat,
{
    let ns = c.structs.len();
    let ne = c.enums.len();
    if c.at(p) != TokV::Dedent && c.at(p) != TokV::Eof {
        lemma_stmt(c, p);
        if let Ok((s, p1)) = stmt_at(c, p) {
            let more = done.push(s);
            assert forall|i: int| 0 <= i < more.len() implies stmt_known(
                ns,
                ne,
                #[trigger] more[i],
            ) by {
                if i < done.len() {
                    assert(more[i] == done[i]);
                }
            }
            lemma_stmts(c, p1, more);
        }
    }
}

proof fn lemma_if(c: Input, p: int)
    requires
        placed(c, p),
        c.at(p) == TokV::If || c.at(p) == TokV::Elif,
    ensures
        if_at(c, p) matches Ok((s, p1)) ==> p < p1 && clean(c, p, p1) && stmt_known(
            c.structs.len(),
            c.enums.len(),
            s,
        ),
    decreases c.toks.len() - p, 2nat,
{
    lemma_expr_then(c, p + 1, TokV::Colon);
    if let Ok((cond, p1)) = expr_then(c, p + 1, TokV::Colon) {
        lemma_block(c, p1);
        if let Ok((b, p2)) = block_at(c, p1) {
            if c.at(p2) == TokV::Elif {
                lemma_if(c, p2);
                if let Ok((s, p3)) = if_at(c, p2) {
                    assert(block_known(c.structs.len(), c.enums.len(), seq![s]));
                }
            } else if c.at(p2) == TokV::Else {
                if let Ok(p3) = c.expect(p2 + 1, TokV::Colon) {
                    lemma_block(c, p3);
                }
            }
        }
    }
}

proof fn lemma_for(c: Input, p: int)
    requires
        placed(c, p),
        c.at(p) == TokV::For,
    ensures
        for_at(c, p) matches Ok((s, p1)) ==> p < p1 && clean(c, p, p1) && stmt_known(
            c.structs.len(),
            c.enums.len(),
            s,
        ),
    decreases c.toks.len() - p, 2nat,
{
    let ne = c.enums.len();
    if let Ok((var, p1)) = c.ident_then(p + 1, TokV::In) {
        lemma_expr_then(c, p1, TokV::Colon);
        if let Ok((iterable, p2)) = expr_then(c, p1, TokV::Colon) {
            lemma_block(c, p2);
            assert(kind_known(ne, iterable.kind));
            assert(kind_known(ne, KindV::Int(0)));
            let zero = crate::grammar::node(KindV::Int(0), iterable.span);
            assert(expr_known(ne, zero));
        }
    }
}

proof fn lemma_names(c: Input, p: int, done: Seq<Seq<char>>)
    requires
        placed(c, p),
    ensures
        names_at(c, p, done) matches Ok((names, p1)) ==> p < p1 && clean(c, p, p1),
    decreases c.toks.len() - p,
{
    if c.at(p) != TokV::RParen {
        if let Ok((name, p1)) = c.ident(p) {
            if c.at(p1) == TokV::Comma {
                lemma_names(c, p1 + 1, done.push(name));
            }
        }
    }
}

pub(crate) proof fn lemma_pattern(c: Input, p: int)
    requires
        placed(c, p),
    ensures
        pattern_at(c, p) matches Ok((pattern, p1)) ==> p < p1 && clean(c, p, p1),
{
    if let Ok((name, p1)) = c.ident(p) {
        if c.at(p1) == TokV::LParen {
            lemma_names(c, p1 + 1, Seq::empty());
        }
    }
}

proof fn lemma_arms(c: Input, p: int, done: Seq<ArmV>)
    requires
        placed(c, p),
        arms_known(c.structs.len(), c.enums.len(), done),
    ensures
        arms_at(c, p, done) matches Ok((arms, p1)) ==> p < p1 && clean(c, p, p1) && arms_known(
            c.structs.len(),
            c.enums.len(),
            arms,
        ),
    decreases c.toks.len() - p, 4nat,
{
    let ns = c.structs.len();
    let ne = c.enums.len();
    if c.at(p) != TokV::Dedent {
        lemma_pattern(c, p);
        if let Ok((pattern, p1)) = pattern_at(c, p) {
            if let Ok(p2) = c.expect(p1, TokV::Colon) {
                lemma_arm_body(c, p2);
                if let Ok((body, p3)) = arm_body_at(c, p2) {
                    let more = done.push(ArmV { pattern, body });
                    assert forall|i: int| 0 <= i < more.len() implies arm_known(
                        ns,
                        ne,
                        #[trigger] more[i],
                    ) by {
                        if i < done.len() {
                            assert(more[i] == done[i]);
                        }
                    }
                    lemma_arms(c, p3, more);
                }
            }
        }
    }
}

pub(crate) proof fn lemma_arm_body(c: Input, p: int)
    requires
        placed(c, p),
    ensures
        arm_body_at(c, p) matches Ok((b, p1)) ==> p < p1 && clean(c, p, p1) && block_known(
            c.structs.len(),
            c.enums.len(),
            b,
        ),
    decreases c.toks.len() - p, 5nat,
{
    if c.at(p) == TokV::Newline {
        lemma_block(c, p);
    } else {
        lemma_stmt(c, p);
        if let Ok((s, p1)) = stmt_at(c, p) {
            assert(block_known(c.structs.len(), c.enums.len(), seq![s]));
        }
    }
}

proof fn lemma_match(c: Input, p: int)
    requires
        placed(c, p),
        c.at(p) == TokV::Match,
    ensures
        match_at(c, p) matches Ok((s, p1)) ==> p < p1 && clean(c, p, p1) && stmt_known(
            c.structs.len(),
            c.enums.len(),
            s,
        ),
    decreases c.toks.len() - p, 2nat,
{
    lemma_expr_then(c, p + 1, TokV::Colon);
    if let Ok((scrutinee, p1)) = expr_then(c, p + 1, TokV::Colon) {
        if let Ok(p2) = c.expect2(p1, TokV::Newline, TokV::Indent) {
            lemma_arms(c, p2, Seq::empty());
        }
    }
}

// ----- declarations --------------------------------------------------------------------------
pub(crate) proof fn lemma_param(c: Input, p: int)
    requires
        placed(c, p),
    ensures
        param_at(c, p) matches Ok((param, p1)) ==> p < p1 && clean(c, p, p1) && known(
            c.structs.len(),
            c.enums.len(),
            param.ty,
        ),
{
    if let Ok((name, p1)) = c.ident_then(p, TokV::Colon) {
        lemma_type(c, p1);
    }
}

proof fn lemma_push_param(ns: nat, ne: nat, done: Seq<ParamV>, p: ParamV)
    requires
        params_known(ns, ne, done),
        known(ns, ne, p.ty),
    ensures
        params_known(ns, ne, done.push(p)),
{
    let more = done.push(p);
    assert forall|i: int| 0 <= i < more.len() implies known(ns, ne, (#[trigger] more[i]).ty) by {
        if i < done.len() {
            assert(more[i] == done[i]);
        }
    }
}

pub(crate) proof fn lemma_params(c: Input, p: int, done: Seq<ParamV>)
    requires
        placed(c, p),
        params_known(c.structs.len(), c.enums.len(), done),
    ensures
        params_at(c, p, done) matches Ok((params, p1)) ==> p < p1 && clean(c, p, p1)
            && params_known(c.structs.len(), c.enums.len(), params),
    decreases c.toks.len() - p,
{
    if c.at(p) != TokV::RParen {
        lemma_param(c, p);
        if let Ok((param, p1)) = param_at(c, p) {
            lemma_push_param(c.structs.len(), c.enums.len(), done, param);
            if c.at(p1) == TokV::Comma {
                lemma_params(c, p1 + 1, done.push(param));
            }
        }
    }
}

pub(crate) proof fn lemma_function(c: Input, p: int)
    requires
        placed(c, p),
        c.at(p) == TokV::Fn,
    ensures
        function_at(c, p) matches Ok((f, p1)) ==> p < p1 && clean(c, p, p1) && function_known(
            c.structs.len(),
            c.enums.len(),
            f,
        ),
{
    if c.at(p + 1) == TokV::LParen {
        lemma_param(c, p + 2);
        if let Ok((r, p1)) = param_at(c, p + 2) {
            if let Ok(p2) = c.expect(p1, TokV::RParen) {
                lemma_function_rest(c, p2);
            }
        }
    } else {
        lemma_function_rest(c, p + 1);
    }
}

/// What follows the receiver.
proof fn lemma_function_rest(c: Input, p: int)
    requires
        placed(c, p),
    ensures
        c.ident_then(p, TokV::LParen) matches Ok((name, p2)) ==> {
            &&& p < p2 && clean(c, p, p2)
            &&& params_at(c, p2, Seq::empty()) matches Ok((params, p3)) ==> {
                &&& p2 < p3 && clean(c, p2, p3)
                &&& params_known(c.structs.len(), c.enums.len(), params)
                &&& return_type_at(c, p3) matches Ok((ret, p4)) ==> {
                    &&& clean(c, p3, p4)
                    &&& known(c.structs.len(), c.enums.len(), ret)
                    &&& c.expect(p4, TokV::Colon) matches Ok(p5) ==> {
                        &&& clean(c, p4, p5)
                        &&& block_at(c, p5) matches Ok((body, p6)) ==> p5 < p6 && clean(c, p5, p6)
                            && block_known(c.structs.len(), c.enums.len(), body)
                    }
                }
            }
        },
{
    if let Ok((name, p2)) = c.ident_then(p, TokV::LParen) {
        lemma_params(c, p2, Seq::empty());
        if let Ok((params, p3)) = params_at(c, p2, Seq::empty()) {
            lemma_return_type(c, p3);
            if let Ok((ret, p4)) = return_type_at(c, p3) {
                if let Ok(p5) = c.expect(p4, TokV::Colon) {
                    lemma_block(c, p5);
                }
            }
        }
    }
}

proof fn lemma_push_type(ns: nat, ne: nat, done: Seq<Type>, t: Type)
    requires
        all_known(ns, ne, done),
        known(ns, ne, t),
    ensures
        all_known(ns, ne, done.push(t)),
{
    let more = done.push(t);
    assert forall|i: int| 0 <= i < more.len() implies known(ns, ne, #[trigger] more[i]) by {
        if i < done.len() {
            assert(more[i] == done[i]);
        }
    }
}

proof fn lemma_extern_params(c: Input, p: int, done: Seq<Type>)
    requires
        placed(c, p),
        all_known(c.structs.len(), c.enums.len(), done),
    ensures
        extern_params_at(c, p, done) matches Ok((params, p1)) ==> p < p1 && clean(c, p, p1)
            && all_known(c.structs.len(), c.enums.len(), params.0),
    decreases c.toks.len() - p,
{
    if c.at(p) != TokV::RParen && c.at(p) != TokV::Ellipsis {
        if let Ok((first, p1)) = c.ident(p) {
            if c.at(p1) == TokV::Colon {
                lemma_type(c, p1 + 1);
            }
        }
        if let Ok((ty, p1)) = extern_param_at(c, p) {
            lemma_push_type(c.structs.len(), c.enums.len(), done, ty);
            if c.at(p1) == TokV::Comma {
                lemma_extern_params(c, p1 + 1, done.push(ty));
            }
        }
    }
}

pub(crate) proof fn lemma_extern(c: Input, p: int)
    requires
        placed(c, p),
        c.at(p) == TokV::Extern,
    ensures
        extern_at(c, p) matches Ok((x, p1)) ==> p < p1 && clean(c, p, p1) && all_known(
            c.structs.len(),
            c.enums.len(),
            x.params,
        ) && known(c.structs.len(), c.enums.len(), x.ret),
{
    if let Ok(p1) = c.expect(p + 1, TokV::Fn) {
        if let Ok((name, p2)) = c.ident_then(p1, TokV::LParen) {
            lemma_extern_params(c, p2, Seq::empty());
            if let Ok((params, p3)) = extern_params_at(c, p2, Seq::empty()) {
                lemma_return_type(c, p3);
            }
        }
    }
}

/// A declaration that begins with a keyword and a name, and nothing of the kind
/// inside.
pub open spec fn heads(c: Input, p: int, p1: int, name: Seq<char>) -> bool {
    &&& p + 1 < p1 && clean(c, p + 1, p1)
    &&& c.at(p + 1) == TokV::Ident(name)
}

proof fn lemma_fields(c: Input, p: int, name: Seq<char>, done: Seq<ParamV>)
    requires
        placed(c, p),
        params_known(c.structs.len(), c.enums.len(), done),
    ensures
        fields_at(c, p, name, done) matches Ok((fields, p1)) ==> p < p1 && clean(c, p, p1)
            && params_known(c.structs.len(), c.enums.len(), fields),
    decreases c.toks.len() - p,
{
    if c.at(p) != TokV::Dedent {
        if let Ok((field, p1)) = c.ident(p) {
            if let Ok(p2) = c.expect(p1, TokV::Colon) {
                lemma_type(c, p2);
                if let Ok((ty, p3)) = type_at(c, p2) {
                    if let Ok(p4) = c.expect(p3, TokV::Newline) {
                        let param = ParamV { name: field, ty };
                        lemma_push_param(c.structs.len(), c.enums.len(), done, param);
                        lemma_fields(c, p4, name, done.push(param));
                    }
                }
            }
        }
    }
}

pub(crate) proof fn lemma_struct(c: Input, p: int)
    requires
        placed(c, p),
        c.at(p) == TokV::Struct,
    ensures
        struct_at(c, p) matches Ok((d, p1)) ==> heads(c, p, p1, d.name) && params_known(
            c.structs.len(),
            c.enums.len(),
            d.fields,
        ),
{
    if let Ok((name, p1)) = header_at(c, p) {
        lemma_fields(c, p1, name, Seq::empty());
    }
}

proof fn lemma_types(c: Input, p: int, done: Seq<Type>)
    requires
        placed(c, p),
        all_known(c.structs.len(), c.enums.len(), done),
    ensures
        types_at(c, p, done) matches Ok((types, p1)) ==> p < p1 && clean(c, p, p1) && all_known(
            c.structs.len(),
            c.enums.len(),
            types,
        ),
    decreases c.toks.len() - p,
{
    if c.at(p) != TokV::RParen {
        lemma_type(c, p);
        if let Ok((ty, p1)) = type_at(c, p) {
            lemma_push_type(c.structs.len(), c.enums.len(), done, ty);
            if c.at(p1) == TokV::Comma {
                lemma_types(c, p1 + 1, done.push(ty));
            }
        }
    }
}

proof fn lemma_variant(c: Input, p: int)
    requires
        placed(c, p),
    ensures
        variant_at(c, p) matches Ok((v, p1)) ==> p < p1 && clean(c, p, p1) && all_known(
            c.structs.len(),
            c.enums.len(),
            v.fields,
        ),
{
    if let Ok((name, p1)) = c.ident(p) {
        if c.at(p1) == TokV::LParen {
            lemma_types(c, p1 + 1, Seq::empty());
        }
    }
}

proof fn lemma_variants(c: Input, p: int, name: Seq<char>, done: Seq<VariantV>)
    requires
        placed(c, p),
        forall|j: int|
            0 <= j < done.len() ==> all_known(
                c.structs.len(),
                c.enums.len(),
                (#[trigger] done[j]).fields,
            ),
    ensures
        variants_at(c, p, name, done) matches Ok((vs, p1)) ==> p < p1 && clean(c, p, p1) && forall|
            j: int,
        |
            0 <= j < vs.len() ==> all_known(
                c.structs.len(),
                c.enums.len(),
                (#[trigger] vs[j]).fields,
            ),
    decreases c.toks.len() - p,
{
    if c.at(p) != TokV::Dedent {
        lemma_variant(c, p);
        if let Ok((v, p1)) = variant_at(c, p) {
            lemma_variants(c, p1, name, done.push(v));
        }
    }
}

pub(crate) proof fn lemma_enum(c: Input, p: int)
    requires
        placed(c, p),
        c.at(p) == TokV::Enum,
    ensures
        enum_at(c, p) matches Ok((d, p1)) ==> heads(c, p, p1, d.name) && enum_known(
            c.structs.len(),
            c.enums.len(),
            d,
        ),
{
    if let Ok((name, p1)) = header_at(c, p) {
        lemma_variants(c, p1, name, Seq::empty());
    }
}

/// Where no declaration of the kind begins, no name is added.
proof fn lemma_declared_clean(c: Input, kw: TokV, p: int, p1: int)
    requires
        clean(c, p, p1),
        kw == TokV::Struct || kw == TokV::Enum,
    ensures
        declared(c.toks, kw, p1) == declared(c.toks, kw, p),
    decreases p1 - p,
{
    if p < p1 {
        lemma_declared_clean(c, kw, p, p1 - 1);
        assert(c.toks[p1 - 1].kind != kw);
    }
}

/// What the declarations so far have to do with the tokens so far.
pub open spec fn in_step(c: Input, p: int, done: ProgramV) -> bool {
    let ns = c.structs.len();
    let ne = c.enums.len();
    &&& placed(c, p)
    &&& struct_names(done.structs) == declared(c.toks, TokV::Struct, p)
    &&& enum_names(done.enums) == declared(c.toks, TokV::Enum, p)
    &&& structs_known(ns, ne, done.structs)
    &&& enums_known(ns, ne, done.enums)
    &&& forall|i: int|
        0 <= i < done.externs.len() ==> all_known(ns, ne, (#[trigger] done.externs[i]).params)
            && known(ns, ne, done.externs[i].ret)
    &&& forall|i: int|
        0 <= i < done.functions.len() ==> function_known(ns, ne, #[trigger] done.functions[i])
}

proof fn lemma_decls(c: Input, p: int, done: ProgramV)
    requires
        in_step(c, p, done),
        forall|k: int| 0 <= k < c.toks.len() - 1 ==> (#[trigger] c.toks[k]).kind != TokV::Eof,
    ensures
        decls_at(c, p, done) matches Ok(all) ==> in_step(c, c.toks.len() - 1, all),
    decreases c.toks.len() - p,
{
    let ns = c.structs.len();
    let ne = c.enums.len();
    match c.at(p) {
        TokV::Extern => {
            lemma_extern(c, p);
            if let Ok((d, p1)) = extern_at(c, p) {
                lemma_declared_clean(c, TokV::Struct, p, p1);
                lemma_declared_clean(c, TokV::Enum, p, p1);
                lemma_decls(c, p1, ProgramV { externs: done.externs.push(d), ..done });
            }
        },
        TokV::Fn => {
            lemma_function(c, p);
            if let Ok((d, p1)) = function_at(c, p) {
                lemma_declared_clean(c, TokV::Struct, p, p1);
                lemma_declared_clean(c, TokV::Enum, p, p1);
                lemma_decls(c, p1, ProgramV { functions: done.functions.push(d), ..done });
            }
        },
        TokV::Struct => {
            lemma_struct(c, p);
            if let Ok((d, p1)) = struct_at(c, p) {
                lemma_declared_clean(c, TokV::Struct, p + 1, p1);
                lemma_declared_clean(c, TokV::Enum, p + 1, p1);
                if !has_struct(done.structs, d.name) {
                    let before = struct_names(done.structs);
                    lemma_find_name(before, d.name, 0);
                    if let Some(k) = find_name(before, d.name, 0) {
                        assert(done.structs[k].name == d.name);
                    }
                    let more = done.structs.push(d);
                    assert(struct_names(more) =~= before.push(d.name));
                    assert(declared(c.toks, TokV::Struct, p + 1) == before.push(d.name));
                    assert(declared(c.toks, TokV::Enum, p + 1) == declared(c.toks, TokV::Enum, p));
                    assert forall|i: int| 0 <= i < more.len() implies params_known(
                        ns,
                        ne,
                        (#[trigger] more[i]).fields,
                    ) by {
                        if i < done.structs.len() {
                            assert(more[i] == done.structs[i]);
                        }
                    }
                    lemma_decls(c, p1, ProgramV { structs: more, ..done });
                }
            }
        },
        TokV::Enum => {
            lemma_enum(c, p);
            if let Ok((d, p1)) = enum_at(c, p) {
                lemma_declared_clean(c, TokV::Struct, p + 1, p1);
                lemma_declared_clean(c, TokV::Enum, p + 1, p1);
                if !has_enum(done.enums, d.name) {
                    let before = enum_names(done.enums);
                    lemma_find_name(before, d.name, 0);
                    if let Some(k) = find_name(before, d.name, 0) {
                        assert(done.enums[k].name == d.name);
                    }
                    let more = done.enums.push(d);
                    assert(enum_names(more) =~= before.push(d.name));
                    assert(declared(c.toks, TokV::Enum, p + 1) == before.push(d.name));
                    assert(declared(c.toks, TokV::Struct, p + 1) == declared(
                        c.toks,
                        TokV::Struct,
                        p,
                    ));
                    assert forall|i: int| 0 <= i < more.len() implies enum_known(
                        ns,
                        ne,
                        #[trigger] more[i],
                    ) by {
                        if i < done.enums.len() {
                            assert(more[i] == done.enums[i]);
                        }
                    }
                    lemma_decls(c, p1, ProgramV { enums: more, ..done });
                }
            }
        },
        _ => {},
    }
}

/// What holds at the end of a source text holds of its program.
proof fn lemma_program(source: Seq<char>)
    ensures
        program_of(source) matches Ok(p) ==> {
            let c = input_of(lexed(source)->Ok_0);
            in_step(c, c.toks.len() - 1, p)
        },
{
    if let Ok(toks) = lexed(source) {
        law_stream_ends_once(source);
        let c = input_of(toks);
        let none = crate::ast::Program::empty();
        assert(struct_names(none.structs) =~= declared(c.toks, TokV::Struct, 0));
        assert(enum_names(none.enums) =~= declared(c.toks, TokV::Enum, 0));
        assert forall|k: int| 0 <= k < toks.len() - 1 implies (#[trigger] toks[k]).kind
            != TokV::Eof by {
            assert(crate::lexer::ordinary(toks[k], source.len()));
        }
        lemma_decls(c, 0, none);
    }
}

/// Structs and enums are numbered in the order of their declarations: the name
/// that a type was written with is that of the declaration its number leads
/// to.
pub proof fn law_ids_follow_declarations(source: Seq<char>, name: Seq<char>)
    ensures
        program_of(source) matches Ok(p) ==> {
            let c = input_of(lexed(source)->Ok_0);
            &&& named_type(c, name) matches Some(Type::Struct(_)) ==> {
                let i = find_name(c.structs, name, 0)->0;
                0 <= i < p.structs.len() && p.structs[i].name == name
            }
            &&& named_type(c, name) matches Some(Type::Enum(_)) ==> {
                let i = find_name(c.enums, name, 0)->0;
                0 <= i < p.enums.len() && p.enums[i].name == name
            }
        },
{
    if let Ok(p) = program_of(source) {
        lemma_program(source);
        let c = input_of(lexed(source)->Ok_0);
        lemma_find_name(c.structs, name, 0);
        lemma_find_name(c.enums, name, 0);
        if let Some(i) = find_name(c.structs, name, 0) {
            assert(struct_names(p.structs)[i] == p.structs[i].name);
        }
        if let Some(i) = find_name(c.enums, name, 0) {
            assert(enum_names(p.enums)[i] == p.enums[i].name);
        }
    }
}

/// Every type in a parsed program names a struct or enum that the program
/// declares.
pub proof fn law_types_resolve(source: Seq<char>)
    ensures
        program_of(source) matches Ok(p) ==> (p.enums.len() <= u32::MAX ==> program_known(p)),
{
    lemma_program(source);
    if let Ok(p) = program_of(source) {
        let c = input_of(lexed(source)->Ok_0);
        assert(struct_names(p.structs).len() == p.structs.len());
        assert(enum_names(p.enums).len() == p.enums.len());
    }
}

} // verus!
