//! Expressions are read back from the tokens that they are written with.
//!
//! The notation of expressions is stated here from the other side: the tokens
//! that a tree is written with, with parentheses where an operand binds less
//! tightly than its place asks for. The parser gives back the tree.
use vstd::prelude::*;
use crate::agreement::{written_expr, written_exprs, written_kind};
use crate::ast::{BinOp, ExprV, KindV, UnOp};
use crate::diag::Fault;
use crate::grammar::{
    atom_at, binary, chain, chain_op, compare_op, expr_at, items, node, suffixes, Input, Parsed,
};
use crate::lexer::TokV;

verus! {

// ----- notation ----------------------------------------------------------------------------------
/// The sign of an operator.
pub open spec fn sign(op: BinOp) -> TokV {
    match op {
        BinOp::Add => TokV::Plus,
        BinOp::Sub => TokV::Minus,
        BinOp::Mul => TokV::Star,
        BinOp::Div => TokV::Slash,
        BinOp::Rem => TokV::Percent,
        BinOp::Eq => TokV::EqEq,
        BinOp::Ne => TokV::NotEq,
        BinOp::Lt => TokV::Lt,
        BinOp::Le => TokV::Le,
        BinOp::Gt => TokV::Gt,
        BinOp::Ge => TokV::Ge,
        BinOp::And => TokV::And,
        BinOp::Or => TokV::Or,
    }
}

/// How loosely an operator binds: products bind most tightly, then sums, then
/// comparisons, then `and`, then `or`.
pub open spec fn looseness(op: BinOp) -> nat {
    match op {
        BinOp::Mul | BinOp::Div | BinOp::Rem => 2,
        BinOp::Add | BinOp::Sub => 3,
        BinOp::Eq | BinOp::Ne | BinOp::Lt | BinOp::Le | BinOp::Gt | BinOp::Ge => 4,
        BinOp::And => 6,
        BinOp::Or => 7,
    }
}

/// How loosely an expression binds; a minus sign binds more tightly than a
/// product, `not` less tightly than a comparison.
pub open spec fn level(e: ExprV) -> nat {
    match e.kind {
        KindV::Binary(_, op, _) => looseness(op),
        KindV::Unary(UnOp::Not, _) => 5,
        KindV::Unary(UnOp::Neg, _) => 1,
        _ => 0,
    }
}

/// The tokens of an expression where one of a level may stand.
pub open spec fn tokens(e: ExprV, n: nat) -> Seq<TokV>
    decreases e, 1nat,
{
    if level(e) <= n {
        bare(e)
    } else {
        seq![TokV::LParen] + bare(e) + seq![TokV::RParen]
    }
}

/// The tokens of an expression without parentheses round it. Operators of one
/// level are applied from the left; comparisons are not chained.
pub open spec fn bare(e: ExprV) -> Seq<TokV>
    decreases e, 0nat,
{
    match e.kind {
        KindV::Int(n) => seq![TokV::Int(n)],
        KindV::Float(s) => seq![TokV::Float(s)],
        KindV::Bool(b) => seq![
            if b {
                TokV::True
            } else {
                TokV::False
            },
        ],
        KindV::Str(s) => seq![TokV::Str(s)],
        KindV::Var(name) => seq![TokV::Ident(name)],
        KindV::Unary(UnOp::Neg, a) => seq![TokV::Minus] + tokens(*a, 1),
        KindV::Unary(UnOp::Not, a) => seq![TokV::Not] + tokens(*a, 5),
        KindV::Binary(a, op, b) => if looseness(op) == 4 {
            tokens(*a, 3) + seq![sign(op)] + tokens(*b, 3)
        } else {
            tokens(*a, looseness(op)) + seq![sign(op)] + tokens(*b, (looseness(op) - 1) as nat)
        },
        KindV::Call(name, args) => seq![TokV::Ident(name), TokV::LParen] + list(args, 0) + seq![
            TokV::RParen,
        ],
        KindV::MethodCall(r, name, args) => tokens(*r, 0) + seq![
            TokV::Dot,
            TokV::Ident(name),
            TokV::LParen,
        ] + list(args, 0) + seq![TokV::RParen],
        KindV::ArrayLit(es) => seq![TokV::LBracket] + list(es, 0) + seq![TokV::RBracket],
        KindV::Index(a, i) => tokens(*a, 0) + seq![TokV::LBracket] + tokens(*i, 7) + seq![
            TokV::RBracket,
        ],
        KindV::Field(a, name) => tokens(*a, 0) + seq![TokV::Dot, TokV::Ident(name)],
        KindV::EnumInit(..) => Seq::empty(),
    }
}

/// The tokens of expressions from the `i`th on, with commas between them.
pub open spec fn list(es: Seq<ExprV>, i: int) -> Seq<TokV>
    decreases es, es.len() - i,
{
    if i < 0 || i >= es.len() {
        Seq::empty()
    } else if i + 1 == es.len() {
        tokens(es[i], 7)
    } else {
        tokens(es[i], 7) + seq![TokV::Comma] + list(es, i + 1)
    }
}

/// Whether two trees say the same, wherever they stand in the source and whatever
/// is known of their types.
pub open spec fn same(a: ExprV, b: ExprV) -> bool
    decreases a,
{
    match (a.kind, b.kind) {
        (KindV::Int(m), KindV::Int(n)) => m == n,
        (KindV::Float(s), KindV::Float(t)) => s == t,
        (KindV::Bool(x), KindV::Bool(y)) => x == y,
        (KindV::Str(s), KindV::Str(t)) => s == t,
        (KindV::Var(s), KindV::Var(t)) => s == t,
        (KindV::Unary(o, x), KindV::Unary(q, y)) => o == q && same(*x, *y),
        (KindV::Binary(x, o, y), KindV::Binary(u, q, v)) => o == q && same(*x, *u) && same(*y, *v),
        (KindV::Call(s, xs), KindV::Call(t, ys)) => s == t && all_same(xs, ys),
        (KindV::MethodCall(x, s, xs), KindV::MethodCall(y, t, ys)) => s == t && same(*x, *y)
            && all_same(xs, ys),
        (KindV::ArrayLit(xs), KindV::ArrayLit(ys)) => all_same(xs, ys),
        (KindV::Index(x, i), KindV::Index(y, j)) => same(*x, *y) && same(*i, *j),
        (KindV::Field(x, s), KindV::Field(y, t)) => s == t && same(*x, *y),
        _ => false,
    }
}

/// Whether trees say the same, one by one.
pub open spec fn all_same(a: Seq<ExprV>, b: Seq<ExprV>) -> bool
    decreases a,
{
    a.len() == b.len() && forall|i: int| 0 <= i < a.len() ==> same(#[trigger] a[i], b[i])
}

/// Whether tokens stand at a position.
pub open spec fn stand(c: Input, p: int, ts: Seq<TokV>) -> bool {
    &&& 0 <= p
    &&& p + ts.len() <= c.toks.len()
    &&& forall|i: int| 0 <= i < ts.len() ==> (#[trigger] ts[i]) == c.toks[p + i].kind
}

/// Whether a token cannot go on with an expression of a level.
pub open spec fn ends(k: TokV, n: nat) -> bool {
    &&& k != TokV::LParen && k != TokV::LBracket && k != TokV::Dot
    &&& n >= 1 ==> forall|op: BinOp| looseness(op) <= n ==> k != #[trigger] sign(op)
}

// ----- reading -----------------------------------------------------------------------------------
pub proof fn lemma_split(c: Input, p: int, a: Seq<TokV>, b: Seq<TokV>)
    requires
        stand(c, p, a + b),
    ensures
        stand(c, p, a),
        stand(c, p + a.len(), b),
{
    let ts = a + b;
    assert forall|i: int| 0 <= i < a.len() implies (#[trigger] a[i]) == c.toks[p + i].kind by {
        assert(ts[i] == a[i]);
    }
    assert forall|i: int| 0 <= i < b.len() implies (#[trigger] b[i]) == c.toks[p + a.len()
        + i].kind by {
        assert(ts[a.len() + i] == b[i]);
    }
}

/// Where tokens stand, each is found.
pub proof fn lemma_found(c: Input, p: int, ts: Seq<TokV>, i: int)
    requires
        stand(c, p, ts),
        0 <= i < ts.len(),
    ensures
        c.at(p + i) == ts[i],
{
    assert(ts[i] == c.toks[p + i].kind);
}

/// An operator goes on with its own level, and with none that binds more tightly.
proof fn lemma_sign(op: BinOp)
    ensures
        ends(sign(op), (looseness(op) - 1) as nat),
        sign(op) != TokV::LParen,
        looseness(op) == 4 ==> compare_op(sign(op)) == Some(op),
        looseness(op) != 4 ==> chain_op(looseness(op), sign(op)) == Some(op),
{
}

/// What cannot go on with an expression is no operator of it.
proof fn lemma_ends(k: TokV, n: nat)
    requires
        ends(k, n),
    ensures
        n >= 1 ==> chain_op(n, k) is None,
        n >= 4 ==> compare_op(k) is None,
{
    assert(sign(BinOp::Or) == TokV::Or);
    assert(sign(BinOp::And) == TokV::And);
    assert(sign(BinOp::Add) == TokV::Plus);
    assert(sign(BinOp::Sub) == TokV::Minus);
    assert(sign(BinOp::Mul) == TokV::Star);
    assert(sign(BinOp::Div) == TokV::Slash);
    assert(sign(BinOp::Rem) == TokV::Percent);
    assert(sign(BinOp::Eq) == TokV::EqEq);
    assert(sign(BinOp::Ne) == TokV::NotEq);
    assert(sign(BinOp::Lt) == TokV::Lt);
    assert(sign(BinOp::Le) == TokV::Le);
    assert(sign(BinOp::Gt) == TokV::Gt);
    assert(sign(BinOp::Ge) == TokV::Ge);
}

/// What cannot go on with an expression cannot go on with one that binds more
/// tightly.
proof fn lemma_ends_below(k: TokV, n: nat, m: nat)
    requires
        ends(k, n),
        m <= n,
    ensures
        ends(k, m),
{
}

/// An expression begins with a token that begins one, and with no sign that binds
/// less tightly.
pub proof fn lemma_first(e: ExprV, n: nat)
    requires
        written_expr(e),
    ensures
        tokens(e, n).len() > 0,
        tokens(e, n)[0] != TokV::RParen,
        tokens(e, n)[0] != TokV::RBracket,
        n == 0 ==> tokens(e, n)[0] != TokV::Minus,
        n <= 4 ==> tokens(e, n)[0] != TokV::Not,
        bare(e).len() > 0,
    decreases e,
{
    match e.kind {
        KindV::Unary(op, a) => {},
        KindV::Binary(a, op, b) => {
            if looseness(op) == 4 {
                lemma_first(*a, 3);
            } else {
                lemma_first(*a, looseness(op));
            }
        },
        KindV::MethodCall(r, name, args) => {
            lemma_first(*r, 0);
        },
        KindV::Index(a, i) => {
            lemma_first(*a, 0);
        },
        KindV::Field(a, name) => {
            lemma_first(*a, 0);
        },
        _ => {},
    }
}

/// An operand and the operators of its level that follow it.
spec fn goes_on(c: Input, p: int, n: nat, e: ExprV) -> Parsed<ExprV> {
    if n == 0 {
        suffixes(c, p, e)
    } else {
        chain(c, p, n, e)
    }
}

spec fn rank(e: ExprV, n: nat) -> nat {
    if level(e) <= n {
        0
    } else {
        1
    }
}

/// Where an expression of a level stands, and what follows cannot go on with it,
/// it is read.
proof fn lemma_read(c: Input, p: int, e: ExprV, n: nat) -> (found: ExprV)
    requires
        written_expr(e),
        n <= 7,
        stand(c, p, tokens(e, n)),
        ends(c.at(p + tokens(e, n).len()), n),
    ensures
        same(found, e),
        expr_at(c, p, n) == Ok::<(ExprV, int), Fault>((found, p + tokens(e, n).len())),
    decreases e, rank(e, n), n, 2nat,
{
    let end = p + tokens(e, n).len();
    let k = c.at(end);
    lemma_first(e, n);
    lemma_found(c, p, tokens(e, n), 0);
    lemma_ends(k, n);
    if n == 0 || n == 2 || n == 3 || n == 6 || n == 7 {
        if n > 0 {
            lemma_ends_below(k, n, (n - 1) as nat);
        }
        let found = lemma_open(c, p, e, n);
        assert(goes_on(c, end, n, found) == Ok::<(ExprV, int), Fault>((found, end)));
        found
    } else if level(e) != n {
        lemma_ends_below(k, n, (n - 1) as nat);
        lemma_first(e, (n - 1) as nat);
        let found = lemma_read(c, p, e, (n - 1) as nat);
        if n == 4 {
            assert(expr_at(c, p, 4) == Ok::<(ExprV, int), Fault>((found, end)));
        }
        found
    } else {
        match e.kind {
            KindV::Unary(op, a) => {
                let s = seq![
                    if n == 1 {
                        TokV::Minus
                    } else {
                        TokV::Not
                    },
                ];
                assert(tokens(e, n) == s + tokens(*a, n));
                lemma_split(c, p, s, tokens(*a, n));
                let under = lemma_read(c, p + 1, *a, n);
                node(KindV::Unary(op, Box::new(under)), c.span(p))
            },
            KindV::Binary(a, op, b) => {
                let (ta, tb) = (tokens(*a, 3), tokens(*b, 3));
                let mid = p + ta.len();
                lemma_split(c, p, ta + seq![sign(op)], tb);
                lemma_split(c, p, ta, seq![sign(op)]);
                lemma_found(c, mid, seq![sign(op)], 0);
                lemma_sign(op);
                lemma_first(*a, 3);
                let left = lemma_read(c, p, *a, 3);
                lemma_ends_below(k, 4, 3);
                let right = lemma_read(c, mid + 1, *b, 3);
                binary(left, op, right, c.span(mid))
            },
            _ => e,
        }
    }
}

/// Where an expression of a level stands, it is read, and the operators of that
/// level that follow are applied to it.
proof fn lemma_open(c: Input, p: int, e: ExprV, n: nat) -> (found: ExprV)
    requires
        written_expr(e),
        n == 0 || n == 2 || n == 3 || n == 6 || n == 7,
        stand(c, p, tokens(e, n)),
        c.at(p + tokens(e, n).len()) != TokV::LParen,
        n > 0 ==> ends(c.at(p + tokens(e, n).len()), (n - 1) as nat),
    ensures
        same(found, e),
        expr_at(c, p, n) == goes_on(c, p + tokens(e, n).len(), n, found),
    decreases e, rank(e, n), n, 1nat,
{
    let end = p + tokens(e, n).len();
    lemma_first(e, n);
    if n > 0 {
        let m = (n - 1) as nat;
        if level(e) != n {
            lemma_read(c, p, e, m)
        } else if let KindV::Binary(a, op, b) = e.kind {
            let (ta, tb) = (tokens(*a, n), tokens(*b, m));
            let mid = p + ta.len();
            lemma_split(c, p, ta + seq![sign(op)], tb);
            lemma_split(c, p, ta, seq![sign(op)]);
            lemma_found(c, mid, seq![sign(op)], 0);
            lemma_sign(op);
            let left = lemma_open(c, p, *a, n);
            let right = lemma_read(c, mid + 1, *b, m);
            lemma_first(*b, m);
            let found = binary(left, op, right, c.span(mid));
            assert(chain(c, mid, n, left) == chain(c, end, n, found));
            found
        } else {
            e
        }
    } else if level(e) > 0 {
        let (open, close) = (seq![TokV::LParen], seq![TokV::RParen]);
        lemma_split(c, p, open + bare(e), close);
        lemma_split(c, p, open, bare(e));
        lemma_found(c, p, open, 0);
        lemma_found(c, end - 1, close, 0);
        let found = lemma_read(c, p + 1, e, 7);
        assert(atom_at(c, p) == Ok::<(ExprV, int), Fault>((found, end)));
        found
    } else {
        lemma_primary(c, p, e)
    }
}

/// Where a primary expression stands, it is read, and the suffixes that follow
/// are applied to it.
proof fn lemma_primary(c: Input, p: int, e: ExprV) -> (found: ExprV)
    requires
        written_expr(e),
        level(e) == 0,
        stand(c, p, bare(e)),
        c.at(p + bare(e).len()) != TokV::LParen,
    ensures
        same(found, e),
        expr_at(c, p, 0) == suffixes(c, p + bare(e).len(), found),
    decreases e, 0nat, 0nat, 0nat,
{
    let end = p + bare(e).len();
    lemma_first(e, 0);
    lemma_found(c, p, bare(e), 0);
    assert(written_kind(e.kind));
    match e.kind {
        KindV::Call(name, args) => {
            let front = seq![TokV::Ident(name), TokV::LParen];
            let back = list(args, 0) + seq![TokV::RParen];
            assert(bare(e) =~= front + back);
            lemma_split(c, p, front, back);
            lemma_found(c, p, front, 0);
            lemma_found(c, p, front, 1);
            let found = lemma_items(c, p + 2, args, 0, TokV::RParen, Seq::empty());
            let call = node(KindV::Call(name, found), c.span(p));
            assert(atom_at(c, p) == Ok::<(ExprV, int), Fault>((call, end)));
            call
        },
        KindV::ArrayLit(es) => {
            let front = seq![TokV::LBracket];
            let back = list(es, 0) + seq![TokV::RBracket];
            assert(bare(e) =~= front + back);
            lemma_split(c, p, front, back);
            lemma_found(c, p, front, 0);
            let found = lemma_items(c, p + 1, es, 0, TokV::RBracket, Seq::empty());
            let array = node(KindV::ArrayLit(found), c.span(p));
            assert(atom_at(c, p) == Ok::<(ExprV, int), Fault>((array, end)));
            array
        },
        KindV::MethodCall(r, name, args) => {
            let ta = tokens(*r, 0);
            let mid = p + ta.len();
            let front = seq![TokV::Dot, TokV::Ident(name), TokV::LParen];
            let back = list(args, 0) + seq![TokV::RParen];
            assert(bare(e) =~= ta + (front + back));
            lemma_split(c, p, ta, front + back);
            lemma_split(c, mid, front, back);
            lemma_found(c, mid, front, 0);
            lemma_found(c, mid, front, 1);
            lemma_found(c, mid, front, 2);
            let receiver = lemma_open(c, p, *r, 0);
            let found = lemma_items(c, mid + 3, args, 0, TokV::RParen, Seq::empty());
            let call = node(
                KindV::MethodCall(Box::new(receiver), name, found),
                c.span(mid),
            );
            assert(suffixes(c, mid, receiver) == suffixes(c, end, call));
            call
        },
        KindV::Index(a, i) => {
            let (ta, ti) = (tokens(*a, 0), tokens(*i, 7));
            let mid = p + ta.len();
            let (open, close) = (seq![TokV::LBracket], seq![TokV::RBracket]);
            assert(bare(e) =~= ta + (open + (ti + close)));
            lemma_split(c, p, ta, open + (ti + close));
            lemma_split(c, mid, open, ti + close);
            lemma_split(c, mid + 1, ti, close);
            lemma_found(c, mid, open, 0);
            lemma_found(c, end - 1, close, 0);
            let base = lemma_open(c, p, *a, 0);
            let index = lemma_read(c, mid + 1, *i, 7);
            let found = node(KindV::Index(Box::new(base), Box::new(index)), c.span(mid));
            assert(suffixes(c, mid, base) == suffixes(c, end, found));
            found
        },
        KindV::Field(a, name) => {
            let ta = tokens(*a, 0);
            let mid = p + ta.len();
            let back = seq![TokV::Dot, TokV::Ident(name)];
            lemma_split(c, p, ta, back);
            lemma_found(c, mid, back, 0);
            lemma_found(c, mid, back, 1);
            let base = lemma_open(c, p, *a, 0);
            let found = node(KindV::Field(Box::new(base), name), c.span(mid));
            assert(suffixes(c, mid, base) == suffixes(c, end, found));
            found
        },
        _ => {
            let found = node(e.kind, c.span(p));
            assert(atom_at(c, p) == Ok::<(ExprV, int), Fault>((found, end)));
            found
        },
    }
}

/// Where expressions stand with commas between them, they are read.
proof fn lemma_items(
    c: Input,
    p: int,
    es: Seq<ExprV>,
    i: int,
    close: TokV,
    done: Seq<ExprV>,
) -> (found: Seq<ExprV>)
    requires
        written_exprs(es),
        0 <= i <= es.len(),
        i == es.len() ==> i == 0,
        close == TokV::RParen || close == TokV::RBracket,
        done.len() == i,
        forall|j: int| 0 <= j < i ==> same(#[trigger] done[j], es[j]),
        stand(c, p, list(es, i) + seq![close]),
    ensures
        all_same(found, es),
        items(c, p, close, done) == Ok::<(Seq<ExprV>, int), Fault>(
            (found, p + list(es, i).len() + 1),
        ),
    decreases es, es.len() - i,
{
    let end = p + list(es, i).len();
    lemma_split(c, p, list(es, i), seq![close]);
    lemma_found(c, end, seq![close], 0);
    if i == es.len() {
        done
    } else {
        let e = es[i];
        let te = tokens(e, 7);
        lemma_first(e, 7);
        lemma_found(c, p, list(es, i), 0);
        if i + 1 == es.len() {
            let one = lemma_read(c, p, e, 7);
            done.push(one)
        } else {
            let rest = list(es, i + 1) + seq![close];
            let mid = p + te.len();
            assert(list(es, i) + seq![close] =~= te + (seq![TokV::Comma] + rest));
            lemma_split(c, p, te, seq![TokV::Comma] + rest);
            lemma_split(c, mid, seq![TokV::Comma], rest);
            lemma_found(c, mid, seq![TokV::Comma], 0);
            let one = lemma_read(c, p, e, 7);
            let found = lemma_items(c, mid + 1, es, i + 1, close, done.push(one));
            assert(items(c, p, close, done) == items(c, mid + 1, close, done.push(one)));
            found
        }
    }
}

/// An expression that is written as tokens is read back: where its tokens stand,
/// and what follows cannot go on with it, the parser finds the same tree and goes
/// on behind them.
pub proof fn law_expressions_are_read_back(c: Input, p: int, e: ExprV)
    requires
        written_expr(e),
        stand(c, p, tokens(e, 7)),
        ends(c.at(p + tokens(e, 7).len()), 7),
    ensures
        expr_at(c, p, 7) matches Ok((found, end)) && same(found, e)
            && end == p + tokens(e, 7).len(),
{
    lemma_read(c, p, e, 7);
}

} // verus!
