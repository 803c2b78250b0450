//! What lowered arithmetic comes to.
//!
//! Expressions of numbers, truth values, variables and operators have a value,
//! stated here by what the operators mean. The code that lowering makes of such an
//! expression runs to that value and leaves memory alone.
use vstd::prelude::*;
use crate::ast::{BinOp, ExprV, KindV, Type, UnOp};
use crate::denotation::bit;
use crate::execution::{begins, made_before};
use crate::ir::{Ins, Ty};
use crate::lowering::{find_var, low_binary, low_expr, low_unary, low_var, Cx, Gen, Slots};
use crate::machine::{
    divided, lemma_ticks_sum, tick, ticks, value, wrap, Floats, Machine, Running, World,
};

verus! {

/// What sort of value a calculation has: an integer, a float or a truth value.
/// `None` if it is no calculation.
pub open spec fn sort_of(vars: Seq<Slots>, e: ExprV) -> Option<Ty>
    decreases e,
{
    match e.kind {
        KindV::Int(_) => Some(Ty::I64),
        KindV::Bool(_) => Some(Ty::I1),
        KindV::Var(name) => match find_var(vars, name) {
            Some((_, Type::Int)) => Some(Ty::I64),
            Some((_, Type::Float)) => Some(Ty::F64),
            Some((_, Type::Bool)) => Some(Ty::I1),
            _ => None,
        },
        KindV::Unary(UnOp::Neg, a) => if sort_of(vars, *a) == Some(Ty::I1) {
            None
        } else {
            sort_of(vars, *a)
        },
        KindV::Unary(UnOp::Not, a) => if sort_of(vars, *a) == Some(Ty::I1) {
            Some(Ty::I1)
        } else {
            None
        },
        KindV::Binary(a, op, b) => if sort_of(vars, *a) != sort_of(vars, *b) || sort_of(vars, *a)
            is None {
            None
        } else {
            match op {
                BinOp::Add | BinOp::Sub | BinOp::Mul | BinOp::Div | BinOp::Rem => if sort_of(
                    vars,
                    *a,
                ) == Some(Ty::I1) {
                    None
                } else {
                    sort_of(vars, *a)
                },
                BinOp::Eq | BinOp::Ne => Some(Ty::I1),
                BinOp::Lt | BinOp::Le | BinOp::Gt | BinOp::Ge => if sort_of(vars, *a) == Some(
                    Ty::I1,
                ) {
                    None
                } else {
                    Some(Ty::I1)
                },
                BinOp::And | BinOp::Or => None,
            }
        },
        _ => None,
    }
}

/// What an operator makes of two integers or truth values.
pub open spec fn whole(op: BinOp, a: int, b: int) -> int {
    match op {
        BinOp::Add => wrap(a + b),
        BinOp::Sub => wrap(a - b),
        BinOp::Mul => wrap(a * b),
        BinOp::Div => wrap(divided(a, b)),
        BinOp::Rem => a - divided(a, b) * b,
        BinOp::Eq => bit(a == b),
        BinOp::Ne => bit(a != b),
        BinOp::Lt => bit(a < b),
        BinOp::Le => bit(a <= b),
        BinOp::Gt => bit(a > b),
        _ => bit(a >= b),
    }
}

/// What an operator makes of two floats.
pub open spec fn broken(f: Floats, op: BinOp, a: int, b: int) -> int {
    match op {
        BinOp::Add => (f.sum)(a, b),
        BinOp::Sub => (f.difference)(a, b),
        BinOp::Mul => (f.product)(a, b),
        BinOp::Div => (f.quotient)(a, b),
        BinOp::Rem => (f.remainder)(a, b),
        BinOp::Eq => bit((f.equal)(a, b)),
        BinOp::Ne => bit((f.unequal)(a, b)),
        BinOp::Lt => bit((f.less)(a, b)),
        BinOp::Le => bit((f.less_or_equal)(a, b)),
        BinOp::Gt => bit((f.greater)(a, b)),
        _ => bit((f.greater_or_equal)(a, b)),
    }
}

/// The value of a calculation, with the variables as they are.
pub open spec fn worth(w: World, r: Running, vars: Seq<Slots>, e: ExprV) -> int
    decreases e,
{
    match e.kind {
        KindV::Int(n) => n as int,
        KindV::Bool(b) => bit(b),
        KindV::Var(name) => {
            let (slot, _) = find_var(vars, name)->0;
            r.mem[r.regs[slot as int]]
        },
        KindV::Unary(UnOp::Neg, a) => if sort_of(vars, *a) == Some(Ty::F64) {
            (w.floats.negative)(worth(w, r, vars, *a))
        } else {
            wrap(-worth(w, r, vars, *a))
        },
        KindV::Unary(UnOp::Not, a) => 1 - worth(w, r, vars, *a),
        KindV::Binary(a, op, b) => {
            let (x, y) = (worth(w, r, vars, *a), worth(w, r, vars, *b));
            if sort_of(vars, *a) == Some(Ty::F64) {
                broken(w.floats, op, x, y)
            } else {
                whole(op, x, y)
            }
        },
        _ => 0,
    }
}

/// Whether variables are there, and those of truth values hold one.
pub open spec fn settled(r: Running, vars: Seq<Slots>, n: int) -> bool {
    forall|name: Seq<char>|
        (#[trigger] find_var(vars, name)) matches Some((slot, ty)) ==> slot < n && (ty == Type::Bool
            ==> 0 <= r.mem[r.regs[slot as int]] <= 1)
}

/// A calculation is lowered: code is added, and nothing else changes.
proof fn lemma_lowers(cx: Cx, g: Gen, e: ExprV)
    requires
        sort_of(g.vars, e) is Some,
    ensures
        low_expr(cx, g, e) matches Ok((g1, v)) && v.1 == sort_of(g.vars, e)->0 && g1.vars == g.vars
            && g.code.len() <= g1.code.len() && (forall|i: int|
            0 <= i < g.code.len() ==> (#[trigger] g1.code[i]) == g.code[i]),
        sort_of(g.vars, e) == Some(Ty::I64) || sort_of(g.vars, e) == Some(Ty::F64) || sort_of(
            g.vars,
            e,
        ) == Some(Ty::I1),
    decreases e,
{
    match e.kind {
        KindV::Var(name) => {
            reveal(low_var);
        },
        KindV::Unary(op, a) => {
            reveal(low_unary);
            lemma_lowers(cx, g, *a);
        },
        KindV::Binary(a, op, b) => {
            reveal(low_binary);
            lemma_lowers(cx, g, *a);
            let (g1, l) = low_expr(cx, g, *a)->Ok_0;
            lemma_lowers(cx, g1, *b);
            let (g2, x) = low_expr(cx, g1, *b)->Ok_0;
            assert(forall|i: int| 0 <= i < g.code.len() ==> g2.code[i] == g.code[i]);
        },
        _ => {},
    }
}

/// A calculation runs to its value, and leaves memory, calls and the values that
/// were there alone.
proof fn lemma_runs(code: Seq<Ins>, w: World, r: Running, cx: Cx, g: Gen, e: ExprV) -> (r1: Running)
    requires
        sort_of(g.vars, e) is Some,
        low_expr(cx, g, e) matches Ok((g1, v)) && begins(code, g1),
        r.pc == g.code.len(),
        settled(r, g.vars, r.pc),
    ensures
        ({
            let (g1, v) = low_expr(cx, g, e)->Ok_0;
            &&& g1.code.len() >= g.code.len()
            &&& ticks(code, w, Machine::On(r), (g1.code.len() - g.code.len()) as nat)
                == Machine::On(r1)
            &&& r1 == (Running { pc: g1.code.len() as int, regs: r1.regs, ..r })
            &&& forall|k: int| k < g.code.len() ==> r1.regs[k] == r.regs[k]
            &&& made_before(g1, v.0)
            &&& value(w, r1, v.0) == worth(w, r, g.vars, e)
            &&& v.1 == Ty::I1 ==> 0 <= worth(w, r, g.vars, e) <= 1
        }),
    decreases e,
{
    lemma_lowers(cx, g, e);
    let (g9, v) = low_expr(cx, g, e)->Ok_0;
    match e.kind {
        KindV::Var(name) => {
            reveal(low_var);
            assert(code[r.pc] == g9.code[r.pc]);
            let (slot, ty) = find_var(g.vars, name)->0;
            reveal_with_fuel(ticks, 2);
            tick(code, w, Machine::On(r))->On_0
        },
        KindV::Unary(op, a) => {
            reveal(low_unary);
            lemma_lowers(cx, g, *a);
            let (g1, x) = low_expr(cx, g, *a)->Ok_0;
            lemma_front(code, g1, g9);
            let ra = lemma_runs(code, w, r, cx, g, *a);
            assert(code[ra.pc] == g9.code[ra.pc]);
            lemma_one_more(code, w, r, ra, (g1.code.len() - g.code.len()) as nat);
            assert(0i64 ^ 1i64 == 1i64 && 1i64 ^ 1i64 == 0i64) by (bit_vector);
            tick(code, w, Machine::On(ra))->On_0
        },
        KindV::Binary(a, op, b) => {
            reveal(low_binary);
            lemma_lowers(cx, g, *a);
            let (g1, x) = low_expr(cx, g, *a)->Ok_0;
            lemma_lowers(cx, g1, *b);
            let (g2, y) = low_expr(cx, g1, *b)->Ok_0;
            lemma_front(code, g2, g9);
            lemma_front(code, g1, g2);
            let ra = lemma_runs(code, w, r, cx, g, *a);
            lemma_still(w, r, ra, g.vars, *b);
            assert(settled(ra, g1.vars, ra.pc));
            let rb = lemma_runs(code, w, ra, cx, g1, *b);
            let (m, n) = (
                (g1.code.len() - g.code.len()) as nat,
                (g2.code.len() - g1.code.len()) as nat,
            );
            lemma_ticks_sum(code, w, Machine::On(r), m, n);
            lemma_one_more(code, w, r, rb, m + n);
            assert(value(w, rb, x.0) == value(w, ra, x.0));
            assert(code[rb.pc] == g9.code[rb.pc]);
            tick(code, w, Machine::On(rb))->On_0
        },
        _ => r,
    }
}

proof fn lemma_front(code: Seq<Ins>, g: Gen, h: Gen)
    requires
        begins(code, h),
        g.code.len() <= h.code.len(),
        forall|i: int| 0 <= i < g.code.len() ==> (#[trigger] h.code[i]) == g.code[i],
    ensures
        begins(code, g),
{
}

proof fn lemma_one_more(code: Seq<Ins>, w: World, r: Running, r1: Running, n: nat)
    requires
        ticks(code, w, Machine::On(r), n) == Machine::On(r1),
    ensures
        ticks(code, w, Machine::On(r), n + 1) == tick(code, w, Machine::On(r1)),
{
    lemma_ticks_sum(code, w, Machine::On(r), n, 1);
    reveal_with_fuel(ticks, 2);
}

/// A calculation has the same value wherever the variables are the same.
proof fn lemma_still(w: World, r: Running, r1: Running, vars: Seq<Slots>, e: ExprV)
    requires
        sort_of(vars, e) is Some,
        settled(r, vars, r.pc),
        r1.mem == r.mem,
        forall|k: int| k < r.pc ==> r1.regs[k] == r.regs[k],
    ensures
        worth(w, r1, vars, e) == worth(w, r, vars, e),
    decreases e,
{
    match e.kind {
        KindV::Unary(op, a) => {
            lemma_still(w, r, r1, vars, *a);
        },
        KindV::Binary(a, op, b) => {
            lemma_still(w, r, r1, vars, *a);
            lemma_still(w, r, r1, vars, *b);
        },
        _ => {},
    }
}

/// The code of a calculation comes to its value: operands are calculated from the
/// left, each operator does what it means to the values of its operands, and
/// memory and calls are left alone.
pub proof fn law_calculations_come_to_their_value(
    code: Seq<Ins>,
    w: World,
    r: Running,
    cx: Cx,
    g: Gen,
    e: ExprV,
)
    requires
        sort_of(g.vars, e) is Some,
        low_expr(cx, g, e) matches Ok((g1, _)) ==> begins(code, g1),
        r.pc == g.code.len(),
        settled(r, g.vars, r.pc),
    ensures
        low_expr(cx, g, e) is Ok,
        ({
            let (g1, v) = low_expr(cx, g, e)->Ok_0;
            let m = ticks(code, w, Machine::On(r), (g1.code.len() - g.code.len()) as nat);
            &&& Some(v.1) == sort_of(g.vars, e)
            &&& m is On && m->On_0.pc == g1.code.len()
            &&& m->On_0.mem == r.mem && m->On_0.log == r.log
            &&& value(w, m->On_0, v.0) == worth(w, r, g.vars, e)
        }),
{
    lemma_lowers(cx, g, e);
    let r1 = lemma_runs(code, w, r, cx, g, e);
}

} // verus!
