//! What is read depends on the tokens read alone, so `elif` chains and nested
//! conditionals are two spellings of one tree.
use vstd::prelude::*;
use crate::ast::{ArmV, ExprV, KindV, StmtV};
use crate::diag::Fault;
use crate::grammar::{
    arm_body_at, arms_at, atom_at, block_at, chain, chain_op, compare_op, expr_at, expr_then,
    for_at, fstring_bound, if_at, items, let_at, match_at, names_at, pattern_at, return_at,
    simple_at, stmt_at, stmts_at, suffixes, type_at, Input, Parsed,
};
use crate::lexer::{TokV, TokenV};

verus! {

/// Whether the tokens of `c` from `lo` on and before `hi` are those of `d`, `k`
/// places further on, and both name the same types.
#[verifier::opaque]
spec fn alike(c: Input, d: Input, k: int, lo: int, hi: int) -> bool {
    &&& c.structs == d.structs
    &&& c.enums == d.enums
    &&& forall|i: int|
        lo <= i < hi ==> 0 <= i < c.toks.len() && 0 <= i + k < d.toks.len()
            && #[trigger] c.toks[i] == d.toks[i + k]
}

proof fn lemma_at(c: Input, d: Input, k: int, lo: int, hi: int, p: int)
    requires
        alike(c, d, k, lo, hi),
        lo <= p < hi,
    ensures
        0 <= p < c.toks.len(),
        0 <= p + k < d.toks.len(),
        c.toks[p] == d.toks[p + k],
        c.at(p) == d.at(p + k),
        c.span(p) == d.span(p + k),
        c.line(p) == d.line(p + k),
{
    reveal(alike);
    assert(c.toks[p] == d.toks[p + k]);
}

/// Whether a reading that ends in `c` comes out the same in `d`.
spec fn moved<A>(a: Parsed<A>, b: Parsed<A>, k: int) -> bool {
    a matches Ok((t, p1)) && b == Ok::<(A, int), Fault>((t, p1 + k))
}

proof fn lemma_bound(toks: Seq<TokenV>, i: int)
    requires
        0 <= i < toks.len(),
    ensures
        toks[i].kind matches TokV::FStr(s) ==> s.len() < fstring_bound(toks),
    decreases toks.len(),
{
    if i < toks.len() - 1 {
        lemma_bound(toks.drop_last(), i);
        assert(toks.drop_last()[i] == toks[i]);
    }
}

// ----- expressions --------------------------------------------------------------------------
proof fn lemma_expr_moves(c: Input, d: Input, k: int, lo: int, hi: int, p: int, n: nat)
    requires
        alike(c, d, k, lo, hi),
        lo <= p,
        0 <= p,
    ensures
        expr_at(c, p, n) matches Ok((e, p1)) ==> p < p1 && (p1 < hi ==> moved(
            expr_at(c, p, n),
            expr_at(d, p + k, n),
            k,
        )),
    decreases c.toks.len() - p, n + 10,
{
    if let Ok((e, p1)) = expr_at(c, p, n) {
        if n == 0 {
            lemma_atom_moves(c, d, k, lo, hi, p);
            let (a, q) = atom_at(c, p)->Ok_0;
            lemma_suffixes_move(c, d, k, lo, hi, q, a);
            if p1 < hi {
                lemma_at(c, d, k, lo, hi, p1);
            }
        } else if n == 1 || n == 5 {
            let mark = if n == 1 {
                TokV::Minus
            } else {
                TokV::Not
            };
            if c.at(p) == mark {
                lemma_expr_moves(c, d, k, lo, hi, p + 1, n);
            } else {
                lemma_expr_moves(c, d, k, lo, hi, p, (n - 1) as nat);
            }
            if p1 < hi {
                lemma_at(c, d, k, lo, hi, p);
            }
        } else if n == 4 {
            lemma_expr_moves(c, d, k, lo, hi, p, 3);
            let (a, q) = expr_at(c, p, 3)->Ok_0;
            if compare_op(c.at(q)) is Some {
                lemma_expr_moves(c, d, k, lo, hi, q + 1, 3);
            }
            if p1 < hi {
                lemma_at(c, d, k, lo, hi, q);
            }
        } else {
            lemma_expr_moves(c, d, k, lo, hi, p, (n - 1) as nat);
            let (a, q) = expr_at(c, p, (n - 1) as nat)->Ok_0;
            lemma_chain_moves(c, d, k, lo, hi, q, n, a);
            if p1 < hi {
                lemma_at(c, d, k, lo, hi, p1);
            }
        }
    }
}

proof fn lemma_chain_moves(
    c: Input,
    d: Input,
    k: int,
    lo: int,
    hi: int,
    p: int,
    n: nat,
    a: ExprV,
)
    requires
        alike(c, d, k, lo, hi),
        lo <= p,
        0 <= p,
    ensures
        chain(c, p, n, a) matches Ok((e, p1)) ==> p <= p1 && (p1 < hi ==> moved(
            chain(c, p, n, a),
            chain(d, p + k, n, a),
            k,
        )),
    decreases c.toks.len() - p, n + 10,
{
    if let Ok((e, p1)) = chain(c, p, n, a) {
        if let Some(op) = chain_op(n, c.at(p)) {
            lemma_expr_moves(c, d, k, lo, hi, p + 1, (n - 1) as nat);
            let (b, q) = expr_at(c, p + 1, (n - 1) as nat)->Ok_0;
            lemma_chain_moves(
                c,
                d,
                k,
                lo,
                hi,
                q,
                n,
                crate::grammar::binary(a, op, b, c.span(p)),
            );
        }
        if p1 < hi {
            lemma_at(c, d, k, lo, hi, p);
            lemma_at(c, d, k, lo, hi, p1);
        }
    }
}

proof fn lemma_suffixes_move(c: Input, d: Input, k: int, lo: int, hi: int, p: int, e: ExprV)
    requires
        alike(c, d, k, lo, hi),
        lo <= p,
        0 <= p,
    ensures
        suffixes(c, p, e) matches Ok((e1, p1)) ==> p <= p1 && (p1 < hi ==> moved(
            suffixes(c, p, e),
            suffixes(d, p + k, e),
            k,
        )),
    decreases c.toks.len() - p, 9nat,
{
    if let Ok((e1, p1)) = suffixes(c, p, e) {
        match c.at(p) {
            TokV::LBracket => {
                lemma_expr_moves(c, d, k, lo, hi, p + 1, 7);
                let (i, q) = expr_at(c, p + 1, 7)->Ok_0;
                let more = crate::grammar::node(
                    KindV::Index(Box::new(e), Box::new(i)),
                    c.span(p),
                );
                lemma_suffixes_move(c, d, k, lo, hi, q + 1, more);
                if p1 < hi {
                    lemma_at(c, d, k, lo, hi, p);
                    lemma_at(c, d, k, lo, hi, q);
                    lemma_at(c, d, k, lo, hi, p1);
                }
            },
            TokV::Dot => {
                let (name, q) = c.ident(p + 1)->Ok_0;
                if c.at(q) == TokV::LParen {
                    lemma_items_move(c, d, k, lo, hi, q + 1, TokV::RParen, Seq::empty());
                    let (args, q2) = items(c, q + 1, TokV::RParen, Seq::empty())->Ok_0;
                    let more = crate::grammar::node(
                        KindV::MethodCall(Box::new(e), name, args),
                        c.span(p),
                    );
                    lemma_suffixes_move(c, d, k, lo, hi, q2, more);
                } else {
                    let more = crate::grammar::node(KindV::Field(Box::new(e), name), c.span(p));
                    lemma_suffixes_move(c, d, k, lo, hi, q, more);
                }
                if p1 < hi {
                    lemma_at(c, d, k, lo, hi, p);
                    lemma_at(c, d, k, lo, hi, p + 1);
                    lemma_at(c, d, k, lo, hi, q);
                    lemma_at(c, d, k, lo, hi, p1);
                }
            },
            _ => {
                if p1 < hi {
                    lemma_at(c, d, k, lo, hi, p);
                }
            },
        }
    }
}

proof fn lemma_items_move(
    c: Input,
    d: Input,
    k: int,
    lo: int,
    hi: int,
    p: int,
    close: TokV,
    done: Seq<ExprV>,
)
    requires
        alike(c, d, k, lo, hi),
        lo <= p,
        0 <= p,
    ensures
        items(c, p, close, done) matches Ok((es, p1)) ==> p < p1 && (p1 <= hi ==> moved(
            items(c, p, close, done),
            items(d, p + k, close, done),
            k,
        )),
    decreases c.toks.len() - p, 20nat,
{
    if let Ok((es, p1)) = items(c, p, close, done) {
        if c.at(p) != close {
            lemma_expr_moves(c, d, k, lo, hi, p, 7);
            let (e, q) = expr_at(c, p, 7)->Ok_0;
            if c.at(q) == TokV::Comma {
                lemma_items_move(c, d, k, lo, hi, q + 1, close, done.push(e));
            }
            if p1 <= hi {
                lemma_at(c, d, k, lo, hi, q);
            }
        }
        if p1 <= hi {
            lemma_at(c, d, k, lo, hi, p);
        }
    }
}

proof fn lemma_atom_moves(c: Input, d: Input, k: int, lo: int, hi: int, p: int)
    requires
        alike(c, d, k, lo, hi),
        lo <= p,
        0 <= p,
    ensures
        atom_at(c, p) matches Ok((e, p1)) ==> p < p1 && (p1 < hi ==> moved(
            atom_at(c, p),
            atom_at(d, p + k),
            k,
        )),
    decreases c.toks.len() - p, 8nat,
{
    if let Ok((e, p1)) = atom_at(c, p) {
        match c.at(p) {
            TokV::FStr(s) => {
                if p1 < hi {
                    lemma_at(c, d, k, lo, hi, p);
                    lemma_bound(d.toks, p + k);
                }
            },
            TokV::LParen => {
                lemma_expr_moves(c, d, k, lo, hi, p + 1, 7);
                let (a, q) = expr_at(c, p + 1, 7)->Ok_0;
                if p1 < hi {
                    lemma_at(c, d, k, lo, hi, p);
                    lemma_at(c, d, k, lo, hi, q);
                }
            },
            TokV::LBracket => {
                lemma_items_move(c, d, k, lo, hi, p + 1, TokV::RBracket, Seq::empty());
                if p1 < hi {
                    lemma_at(c, d, k, lo, hi, p);
                }
            },
            TokV::Ident(name) => {
                if c.at(p + 1) == TokV::LParen {
                    lemma_items_move(c, d, k, lo, hi, p + 2, TokV::RParen, Seq::empty());
                }
                if p1 < hi {
                    lemma_at(c, d, k, lo, hi, p);
                    lemma_at(c, d, k, lo, hi, p + 1);
                }
            },
            _ => {
                if p1 < hi {
                    lemma_at(c, d, k, lo, hi, p);
                }
            },
        }
    }
}

proof fn lemma_then_moves(c: Input, d: Input, k: int, lo: int, hi: int, p: int, t: TokV)
    requires
        alike(c, d, k, lo, hi),
        lo <= p,
        0 <= p,
    ensures
        expr_then(c, p, t) matches Ok((e, p1)) ==> p < p1 && (p1 <= hi ==> moved(
            expr_then(c, p, t),
            expr_then(d, p + k, t),
            k,
        )),
{
    lemma_expr_moves(c, d, k, lo, hi, p, 7);
    if let Ok((e, p1)) = expr_then(c, p, t) {
        if p1 <= hi {
            lemma_at(c, d, k, lo, hi, p1 - 1);
        }
    }
}

proof fn lemma_type_moves(c: Input, d: Input, k: int, lo: int, hi: int, p: int)
    requires
        alike(c, d, k, lo, hi),
        lo <= p,
        0 <= p,
    ensures
        type_at(c, p) matches Ok((t, p1)) ==> p < p1 && (p1 <= hi ==> moved(
            type_at(c, p),
            type_at(d, p + k),
            k,
        )),
    decreases c.toks.len() - p,
{
    if let Ok((t, p1)) = type_at(c, p) {
        if c.at(p) == TokV::LBracket {
            lemma_type_moves(c, d, k, lo, hi, p + 1);
            if p1 <= hi {
                lemma_at(c, d, k, lo, hi, p1 - 1);
            }
        }
        if p1 <= hi {
            lemma_at(c, d, k, lo, hi, p);
            reveal(alike);
        }
    }
}

// ----- statements -----------------------------------------------------------------------------
/// Whether a statement that ends at `p1` ends there in `d` too: no `elif` or
/// `else` goes on with it.
spec fn ends_at(d: Input, k: int, hi: int, p1: int) -> bool {
    p1 < hi || (p1 == hi && 0 <= p1 + k < d.toks.len() && d.at(p1 + k) != TokV::Elif && d.at(p1 + k)
        != TokV::Else)
}

proof fn lemma_let_moves(c: Input, d: Input, k: int, lo: int, hi: int, p: int)
    requires
        alike(c, d, k, lo, hi),
        lo <= p,
        0 <= p,
    ensures
        let_at(c, p) matches Ok((s, p1)) ==> p < p1 && (p1 <= hi ==> moved(
            let_at(c, p),
            let_at(d, p + k),
            k,
        )),
{
    if let Ok((s, p1)) = let_at(c, p) {
        let (name, q) = c.ident(p + 1)->Ok_0;
        if c.at(q) == TokV::Colon {
            lemma_type_moves(c, d, k, lo, hi, q + 1);
            let (t, q2) = type_at(c, q + 1)->Ok_0;
            lemma_then_moves(c, d, k, lo, hi, q2 + 1, TokV::Newline);
            if p1 <= hi {
                lemma_at(c, d, k, lo, hi, q2);
            }
        } else {
            lemma_then_moves(c, d, k, lo, hi, q + 1, TokV::Newline);
        }
        if p1 <= hi {
            lemma_at(c, d, k, lo, hi, p);
            lemma_at(c, d, k, lo, hi, p + 1);
            lemma_at(c, d, k, lo, hi, q);
        }
    }
}

proof fn lemma_simple_moves(c: Input, d: Input, k: int, lo: int, hi: int, p: int)
    requires
        alike(c, d, k, lo, hi),
        lo <= p,
        0 <= p,
    ensures
        simple_at(c, p) matches Ok((s, p1)) ==> p < p1 && (p1 <= hi ==> moved(
            simple_at(c, p),
            simple_at(d, p + k),
            k,
        )),
{
    if let Ok((s, p1)) = simple_at(c, p) {
        lemma_expr_moves(c, d, k, lo, hi, p, 7);
        let (e, q) = expr_at(c, p, 7)->Ok_0;
        if c.at(q) == TokV::Assign {
            lemma_then_moves(c, d, k, lo, hi, q + 1, TokV::Newline);
        }
        if p1 <= hi {
            lemma_at(c, d, k, lo, hi, p);
            lemma_at(c, d, k, lo, hi, q);
        }
    }
}

proof fn lemma_return_moves(c: Input, d: Input, k: int, lo: int, hi: int, p: int)
    requires
        alike(c, d, k, lo, hi),
        lo <= p,
        0 <= p,
    ensures
        return_at(c, p) matches Ok((s, p1)) ==> p < p1 && (p1 <= hi ==> moved(
            return_at(c, p),
            return_at(d, p + k),
            k,
        )),
{
    if let Ok((s, p1)) = return_at(c, p) {
        lemma_then_moves(c, d, k, lo, hi, p + 1, TokV::Newline);
        if p1 <= hi {
            lemma_at(c, d, k, lo, hi, p);
            lemma_at(c, d, k, lo, hi, p + 1);
        }
    }
}

proof fn lemma_stmt_moves(c: Input, d: Input, k: int, lo: int, hi: int, p: int)
    requires
        alike(c, d, k, lo, hi),
        lo <= p,
        0 <= p,
    ensures
        stmt_at(c, p) matches Ok((s, p1)) ==> p < p1 && (ends_at(d, k, hi, p1) ==> moved(
            stmt_at(c, p),
            stmt_at(d, p + k),
            k,
        )),
    decreases c.toks.len() - p, 3nat,
{
    if let Ok((s, p1)) = stmt_at(c, p) {
        match c.at(p) {
            TokV::Let => {
                lemma_let_moves(c, d, k, lo, hi, p);
            },
            TokV::Return => {
                lemma_return_moves(c, d, k, lo, hi, p);
            },
            TokV::If => {
                lemma_if_moves(c, d, k, lo, hi, p);
            },
            TokV::For => {
                lemma_for_moves(c, d, k, lo, hi, p);
            },
            TokV::Match => {
                lemma_match_moves(c, d, k, lo, hi, p);
            },
            TokV::While => {
                lemma_then_moves(c, d, k, lo, hi, p + 1, TokV::Colon);
                let (cond, q) = expr_then(c, p + 1, TokV::Colon)->Ok_0;
                lemma_block_moves(c, d, k, lo, hi, q);
                if ends_at(d, k, hi, p1) {
                    lemma_at(c, d, k, lo, hi, p1 - 1);
                }
            },
            TokV::Ident(_) => {
                lemma_simple_moves(c, d, k, lo, hi, p);
            },
            _ => {},
        }
        if ends_at(d, k, hi, p1) {
            lemma_at(c, d, k, lo, hi, p);
            if c.at(p) == TokV::Break || c.at(p) == TokV::Continue {
                lemma_at(c, d, k, lo, hi, p + 1);
            }
        }
    }
}

proof fn lemma_block_moves(c: Input, d: Input, k: int, lo: int, hi: int, p: int)
    requires
        alike(c, d, k, lo, hi),
        lo <= p,
        0 <= p,
    ensures
        block_at(c, p) matches Ok((b, p1)) ==> p < p1 && (p1 <= hi ==> moved(
            block_at(c, p),
            block_at(d, p + k),
            k,
        )),
    decreases c.toks.len() - p, 1nat,
{
    if let Ok((b, p1)) = block_at(c, p) {
        lemma_stmts_move(c, d, k, lo, hi, p + 2, Seq::empty());
        if p1 <= hi {
            lemma_at(c, d, k, lo, hi, p);
            lemma_at(c, d, k, lo, hi, p + 1);
        }
    }
}

proof fn lemma_stmts_move(
    c: Input,
    d: Input,
    k: int,
    lo: int,
    hi: int,
    p: int,
    done: Seq<StmtV>,
)
    requires
        alike(c, d, k, lo, hi),
        lo <= p,
        0 <= p,
    ensures
        stmts_at(c, p, done) matches Ok((b, p1)) ==> p < p1 && (p1 <= hi ==> moved(
            stmts_at(c, p, done),
            stmts_at(d, p + k, done),
            k,
        )),
    decreases c.toks.len() - p, 4nat,
{
    if let Ok((b, p1)) = stmts_at(c, p, done) {
        if c.at(p) != TokV::Dedent {
            lemma_stmt_moves(c, d, k, lo, hi, p);
            let (s, q) = stmt_at(c, p)->Ok_0;
            lemma_stmts_move(c, d, k, lo, hi, q, done.push(s));
            if p1 <= hi {
                lemma_at(c, d, k, lo, hi, q);
            }
        }
        if p1 <= hi {
            lemma_at(c, d, k, lo, hi, p);
        }
    }
}

/// The keyword itself is not read again: `lo` may be behind it.
proof fn lemma_if_moves(c: Input, d: Input, k: int, lo: int, hi: int, p: int)
    requires
        alike(c, d, k, lo, hi),
        lo <= p + 1,
        0 <= p,
    ensures
        if_at(c, p) matches Ok((s, p1)) ==> p < p1 && (ends_at(d, k, hi, p1) ==> moved(
            if_at(c, p),
            if_at(d, p + k),
            k,
        )),
    decreases c.toks.len() - p, 2nat,
{
    if let Ok((s, p1)) = if_at(c, p) {
        lemma_then_moves(c, d, k, lo, hi, p + 1, TokV::Colon);
        let (cond, q1) = expr_then(c, p + 1, TokV::Colon)->Ok_0;
        lemma_block_moves(c, d, k, lo, hi, q1);
        let (then_block, q2) = block_at(c, q1)->Ok_0;
        if c.at(q2) == TokV::Elif {
            lemma_if_moves(c, d, k, lo, hi, q2);
        } else if c.at(q2) == TokV::Else {
            lemma_block_moves(c, d, k, lo, hi, q2 + 2);
        }
        if ends_at(d, k, hi, p1) {
            lemma_at(c, d, k, lo, hi, p + 1);
            lemma_at(c, d, k, lo, hi, q1);
            lemma_at(c, d, k, lo, hi, q2 - 1);
            if q2 < hi {
                lemma_at(c, d, k, lo, hi, q2);
            }
            if c.at(q2) == TokV::Else {
                lemma_at(c, d, k, lo, hi, q2 + 1);
                lemma_at(c, d, k, lo, hi, q2 + 2);
            }
        }
    }
}

proof fn lemma_for_moves(c: Input, d: Input, k: int, lo: int, hi: int, p: int)
    requires
        alike(c, d, k, lo, hi),
        lo <= p,
        0 <= p,
    ensures
        for_at(c, p) matches Ok((s, p1)) ==> p < p1 && (p1 <= hi ==> moved(
            for_at(c, p),
            for_at(d, p + k),
            k,
        )),
    decreases c.toks.len() - p, 2nat,
{
    if let Ok((s, p1)) = for_at(c, p) {
        let (var, q) = c.ident_then(p + 1, TokV::In)->Ok_0;
        lemma_then_moves(c, d, k, lo, hi, q, TokV::Colon);
        let (iterable, q2) = expr_then(c, q, TokV::Colon)->Ok_0;
        lemma_block_moves(c, d, k, lo, hi, q2);
        if p1 <= hi {
            lemma_at(c, d, k, lo, hi, p);
            lemma_at(c, d, k, lo, hi, p + 1);
            lemma_at(c, d, k, lo, hi, p + 2);
            lemma_at(c, d, k, lo, hi, q2);
        }
    }
}

proof fn lemma_names_move(
    c: Input,
    d: Input,
    k: int,
    lo: int,
    hi: int,
    p: int,
    done: Seq<Seq<char>>,
)
    requires
        alike(c, d, k, lo, hi),
        lo <= p,
        0 <= p,
    ensures
        names_at(c, p, done) matches Ok((names, p1)) ==> p < p1 && (p1 <= hi ==> moved(
            names_at(c, p, done),
            names_at(d, p + k, done),
            k,
        )),
    decreases c.toks.len() - p,
{
    if let Ok((names, p1)) = names_at(c, p, done) {
        if c.at(p) != TokV::RParen {
            let (name, q) = c.ident(p)->Ok_0;
            if c.at(q) == TokV::Comma {
                lemma_names_move(c, d, k, lo, hi, q + 1, done.push(name));
            }
            if p1 <= hi {
                lemma_at(c, d, k, lo, hi, q);
            }
        }
        if p1 <= hi {
            lemma_at(c, d, k, lo, hi, p);
        }
    }
}

proof fn lemma_pattern_moves(c: Input, d: Input, k: int, lo: int, hi: int, p: int)
    requires
        alike(c, d, k, lo, hi),
        lo <= p,
        0 <= p,
    ensures
        pattern_at(c, p) matches Ok((pattern, p1)) ==> p < p1 && (p1 < hi ==> moved(
            pattern_at(c, p),
            pattern_at(d, p + k),
            k,
        )),
{
    if let Ok((pattern, p1)) = pattern_at(c, p) {
        let (name, q) = c.ident(p)->Ok_0;
        if c.at(q) == TokV::LParen {
            lemma_names_move(c, d, k, lo, hi, q + 1, Seq::empty());
        }
        if p1 < hi {
            lemma_at(c, d, k, lo, hi, p);
            lemma_at(c, d, k, lo, hi, q);
        }
    }
}

proof fn lemma_arms_move(
    c: Input,
    d: Input,
    k: int,
    lo: int,
    hi: int,
    p: int,
    done: Seq<ArmV>,
)
    requires
        alike(c, d, k, lo, hi),
        lo <= p,
        0 <= p,
    ensures
        arms_at(c, p, done) matches Ok((arms, p1)) ==> p < p1 && (p1 <= hi ==> moved(
            arms_at(c, p, done),
            arms_at(d, p + k, done),
            k,
        )),
    decreases c.toks.len() - p, 4nat,
{
    if let Ok((arms, p1)) = arms_at(c, p, done) {
        if c.at(p) != TokV::Dedent {
            lemma_pattern_moves(c, d, k, lo, hi, p);
            let (pattern, q) = pattern_at(c, p)->Ok_0;
            lemma_arm_body_moves(c, d, k, lo, hi, q + 1);
            let (body, q2) = arm_body_at(c, q + 1)->Ok_0;
            lemma_arms_move(c, d, k, lo, hi, q2, done.push(ArmV { pattern, body }));
            if p1 <= hi {
                lemma_at(c, d, k, lo, hi, q);
                lemma_at(c, d, k, lo, hi, q2);
            }
        }
        if p1 <= hi {
            lemma_at(c, d, k, lo, hi, p);
        }
    }
}

proof fn lemma_arm_body_moves(c: Input, d: Input, k: int, lo: int, hi: int, p: int)
    requires
        alike(c, d, k, lo, hi),
        lo <= p,
        0 <= p,
    ensures
        arm_body_at(c, p) matches Ok((b, p1)) ==> p < p1 && (p1 < hi ==> moved(
            arm_body_at(c, p),
            arm_body_at(d, p + k),
            k,
        )),
    decreases c.toks.len() - p, 5nat,
{
    if let Ok((b, p1)) = arm_body_at(c, p) {
        if c.at(p) == TokV::Newline {
            lemma_block_moves(c, d, k, lo, hi, p);
        } else {
            lemma_stmt_moves(c, d, k, lo, hi, p);
        }
        if p1 < hi {
            lemma_at(c, d, k, lo, hi, p);
        }
    }
}

proof fn lemma_match_moves(c: Input, d: Input, k: int, lo: int, hi: int, p: int)
    requires
        alike(c, d, k, lo, hi),
        lo <= p,
        0 <= p,
    ensures
        match_at(c, p) matches Ok((s, p1)) ==> p < p1 && (p1 <= hi ==> moved(
            match_at(c, p),
            match_at(d, p + k),
            k,
        )),
    decreases c.toks.len() - p, 2nat,
{
    if let Ok((s, p1)) = match_at(c, p) {
        lemma_then_moves(c, d, k, lo, hi, p + 1, TokV::Colon);
        let (scrutinee, q) = expr_then(c, p + 1, TokV::Colon)->Ok_0;
        lemma_arms_move(c, d, k, lo, hi, q + 2, Seq::empty());
        if p1 <= hi {
            lemma_at(c, d, k, lo, hi, p);
            lemma_at(c, d, k, lo, hi, q);
            lemma_at(c, d, k, lo, hi, q + 1);
            lemma_at(c, d, k, lo, hi, q + 2);
        }
    }
}

// ----- the two spellings ------------------------------------------------------------------------
/// Tokens that open a block with an `else`, and an `if` in it.
pub open spec fn opens(toks: Seq<TokenV>) -> bool {
    &&& toks.len() == 5
    &&& toks[0].kind == TokV::Else
    &&& toks[1].kind == TokV::Colon
    &&& toks[2].kind == TokV::Newline
    &&& toks[3].kind == TokV::Indent
    &&& toks[4].kind == TokV::If
}

/// The input with `open` in place of the `elif` at `at`, and `close` at the end
/// of what it begins.
pub open spec fn nested(c: Input, at: int, end: int, open: Seq<TokenV>, close: TokenV) -> Input {
    Input {
        toks: c.toks.take(at) + open + c.toks.subrange(at + 1, end) + seq![close] + c.toks.skip(
            end,
        ),
        ..c
    }
}

/// The tokens of the nested spelling.
proof fn lemma_nested(c: Input, p: int, at: int, end: int, open: Seq<TokenV>, close: TokenV)
    requires
        0 <= p < at < end <= c.toks.len(),
        opens(open),
        close.kind == TokV::Dedent,
    ensures
        ({
            let d = nested(c, at, end, open, close);
            &&& d.toks.len() == c.toks.len() + 5
            &&& alike(c, d, 0, p, at)
            &&& alike(c, d, 4, at + 1, end)
            &&& d.at(at) == TokV::Else
            &&& d.at(at + 1) == TokV::Colon
            &&& d.at(at + 2) == TokV::Newline
            &&& d.at(at + 3) == TokV::Indent
            &&& d.at(at + 4) == TokV::If
            &&& d.at(end + 4) == TokV::Dedent
        }),
{
    reveal(alike);
    let d = nested(c, at, end, open, close);
    assert forall|i: int| p <= i < at implies 0 <= i < c.toks.len() && 0 <= i + 0 < d.toks.len()
        && #[trigger] c.toks[i] == d.toks[i + 0] by {}
    assert forall|i: int| at + 1 <= i < end implies 0 <= i < c.toks.len() && 0 <= i + 4
        < d.toks.len() && #[trigger] c.toks[i] == d.toks[i + 4] by {
        assert(c.toks.subrange(at + 1, end)[i - at - 1] == c.toks[i]);
    }
    assert(d.toks[end + 4] == close);
    assert(d.toks[at] == open[0] && d.toks[at + 1] == open[1] && d.toks[at + 2] == open[2]);
    assert(d.toks[at + 3] == open[3] && d.toks[at + 4] == open[4]);
}

/// An `else` whose block holds one conditional and nothing else.
proof fn lemma_else_block(d: Input, at: int, inner: StmtV, end: int)
    requires
        0 <= at,
        at + 4 < end < d.toks.len(),
        d.at(at + 2) == TokV::Newline,
        d.at(at + 3) == TokV::Indent,
        d.at(at + 4) == TokV::If,
        d.at(end) == TokV::Dedent,
        if_at(d, at + 4) == Ok::<(StmtV, int), Fault>((inner, end)),
    ensures
        block_at(d, at + 2) == Ok::<(Seq<StmtV>, int), Fault>((seq![inner], end + 1)),
{
    let none = Seq::<StmtV>::empty();
    assert(none.push(inner) =~= seq![inner]);
    assert(stmt_at(d, at + 4) == if_at(d, at + 4));
    assert(stmts_at(d, end, seq![inner]) == Ok::<(Seq<StmtV>, int), Fault>((seq![inner], end + 1)));
    assert(stmts_at(d, at + 4, none) == stmts_at(d, end, none.push(inner)));
}

/// A conditional with an `else`, from its parts.
proof fn lemma_with_else(
    d: Input,
    p: int,
    cond: ExprV,
    p1: int,
    then_block: Seq<StmtV>,
    p2: int,
    b: Seq<StmtV>,
    p3: int,
)
    requires
        p < p1 <= d.toks.len(),
        p < p2,
        p2 + 2 <= d.toks.len(),
        expr_then(d, p + 1, TokV::Colon) == Ok::<(ExprV, int), Fault>((cond, p1)),
        block_at(d, p1) == Ok::<(Seq<StmtV>, int), Fault>((then_block, p2)),
        d.at(p2) == TokV::Else,
        d.at(p2 + 1) == TokV::Colon,
        block_at(d, p2 + 2) == Ok::<(Seq<StmtV>, int), Fault>((b, p3)),
    ensures
        if_at(d, p) == Ok::<(StmtV, int), Fault>(
            (StmtV::If { cond, then_block, else_block: Some(b) }, p3),
        ),
{
}

/// `elif` chains desugar to nested if/else: a conditional with an `elif` (the
/// one at `at`, behind its first block) is read as the same tree as the one in
/// which an `else` block, with an indented `if` in it and nothing else, stands
/// in place of the `elif`.
pub proof fn law_elif_is_a_nested_if(
    c: Input,
    p: int,
    at: int,
    open: Seq<TokenV>,
    close: TokenV,
)
    requires
        0 <= p,
        if_at(c, p) is Ok,
        ({
            let (cond, p1) = expr_then(c, p + 1, TokV::Colon)->Ok_0;
            block_at(c, p1)->Ok_0.1 == at
        }),
        c.at(at) == TokV::Elif,
        if_at(c, p)->Ok_0.1 <= c.toks.len(),
        opens(open),
        close.kind == TokV::Dedent,
    ensures
        ({
            let (s, end) = if_at(c, p)->Ok_0;
            if_at(nested(c, at, end, open, close), p) == Ok::<(StmtV, int), Fault>((s, end + 5))
        }),
{
    let (s, end) = if_at(c, p)->Ok_0;
    let (cond, p1) = expr_then(c, p + 1, TokV::Colon)->Ok_0;
    let (then_block, p2) = block_at(c, p1)->Ok_0;
    let (inner, p3) = if_at(c, at)->Ok_0;
    let d = nested(c, at, end, open, close);
    assert(at == p2 && end == p3);
    assert(s == (StmtV::If { cond, then_block, else_block: Some(seq![inner]) }));
    assert(alike(c, c, 0, at + 1, at + 1)) by {
        reveal(alike);
    }
    lemma_if_moves(c, c, 0, at + 1, at + 1, at);
    lemma_nested(c, p, at, end, open, close);
    // What comes before the `elif`.
    lemma_then_moves(c, d, 0, p, at, p + 1, TokV::Colon);
    lemma_block_moves(c, d, 0, p, at, p1);
    // What comes behind it.
    lemma_if_moves(c, d, 4, at + 1, end, at);
    lemma_else_block(d, at, inner, end + 4);
    lemma_with_else(d, p, cond, p1, then_block, at, seq![inner], end + 5);
}

} // verus!
