//! Operators compute what they stand for.
//!
//! Each law runs the instructions that lowering puts behind the operands of an
//! operator, and says what comes out in terms of what the operands are.
use vstd::prelude::*;
use crate::ast::{BinOp, UnOp};
use crate::denotation::{bit, comes_out, lemma_wraps};
use crate::execution::{begins, made_before};
use crate::ir::{Callee, Ins, Rt, Ty, Val};
use crate::lowering::{call, low_binary, low_unary, pass, str_op, Gen};
use crate::machine::{divided, tick, ticks, value, Event, Floats, Machine, Running, World};

verus! {

/// Whether an integer is the quotient of two others, cut off towards zero.
pub open spec fn quotient(a: int, b: int, q: int) -> bool {
    let rest = a - q * b;
    &&& -b < rest < b || b < rest < -b
    &&& rest == 0 || (rest < 0) == (a < 0)
}

/// What an operation on two integers comes to; sums, differences, products and
/// quotients wrap round. Of a division by zero nothing is said.
pub open spec fn on_integers(op: BinOp, a: int, b: int, x: int) -> bool {
    match op {
        BinOp::Add => comes_out(x, a + b),
        BinOp::Sub => comes_out(x, a - b),
        BinOp::Mul => comes_out(x, a * b),
        BinOp::Div => b != 0 ==> forall|q: int| #[trigger] quotient(a, b, q) ==> comes_out(x, q),
        BinOp::Rem => b != 0 ==> forall|q: int| #[trigger] quotient(a, b, q) ==> x == a - q * b,
        BinOp::Eq => x == bit(a == b),
        BinOp::Ne => x == bit(a != b),
        BinOp::Lt => x == bit(a < b),
        BinOp::Le => x == bit(a <= b),
        BinOp::Gt => x == bit(a > b),
        BinOp::Ge => x == bit(a >= b),
        BinOp::And | BinOp::Or => false,
    }
}

/// What an operation on two floating-point numbers comes to.
pub open spec fn on_floats(f: Floats, op: BinOp, a: int, b: int, x: int) -> bool {
    match op {
        BinOp::Add => x == (f.sum)(a, b),
        BinOp::Sub => x == (f.difference)(a, b),
        BinOp::Mul => x == (f.product)(a, b),
        BinOp::Div => x == (f.quotient)(a, b),
        BinOp::Rem => x == (f.remainder)(a, b),
        BinOp::Eq => x == bit((f.equal)(a, b)),
        BinOp::Ne => x == bit((f.unequal)(a, b)),
        BinOp::Lt => x == bit((f.less)(a, b)),
        BinOp::Le => x == bit((f.less_or_equal)(a, b)),
        BinOp::Gt => x == bit((f.greater)(a, b)),
        BinOp::Ge => x == bit((f.greater_or_equal)(a, b)),
        BinOp::And | BinOp::Or => false,
    }
}

/// Whether the result of an operation has the type it should have: a truth value
/// if it compares, else the type of the operands.
pub open spec fn typed_as(op: BinOp, operand: Ty, result: Ty) -> bool {
    match op {
        BinOp::Add | BinOp::Sub | BinOp::Mul | BinOp::Div | BinOp::Rem => result == operand,
        _ => result == Ty::I1,
    }
}

/// The quotient that is cut off towards zero is the one that division gives.
proof fn lemma_quotient(a: int, b: int, q: int)
    requires
        b != 0,
        quotient(a, b, q),
    ensures
        divided(a, b) == q,
{
    let (m, n) = (if a < 0 { -a } else { a }, if b < 0 { -b } else { b });
    let k = if (a < 0) == (b < 0) { q } else { -q };
    let rest = a - q * b;
    assert(m == k * n + (if a < 0 { -rest } else { rest })) by (nonlinear_arith)
        requires
            m == (if a < 0 { -a } else { a }),
            n == (if b < 0 { -b } else { b }),
            k == (if (a < 0) == (b < 0) { q } else { -q }),
            rest == a - q * b,
    ;
    let left = if a < 0 { -rest } else { rest };
    assert(0 <= left < n);
    vstd::arithmetic::div_mod::lemma_fundamental_div_mod_converse(m, n, k, left);
}

/// Two operands that are numbers come to what the operator says.
pub proof fn law_operators_compute(
    code: Seq<Ins>,
    w: World,
    r: Running,
    g: Gen,
    op: BinOp,
    ty: Ty,
    left: Val,
    right: Val,
)
    requires
        op != BinOp::And && op != BinOp::Or,
        ty == Ty::I64 || ty == Ty::F64,
        low_binary(g, op, (left, ty), (right, ty)) matches Ok((g1, _)) ==> begins(code, g1),
        r.pc == g.code.len(),
        g.code.len() < usize::MAX,
        ty == Ty::I64 ==> i64::MIN <= value(w, r, left) <= i64::MAX,
    ensures
        low_binary(g, op, (left, ty), (right, ty)) is Ok,
        tick(code, w, Machine::On(r)) is On,
        ({
            let (v, t) = low_binary(g, op, (left, ty), (right, ty))->Ok_0.1;
            let (a, b) = (value(w, r, left), value(w, r, right));
            let r1 = tick(code, w, Machine::On(r))->On_0;
            &&& typed_as(op, ty, t)
            &&& ty == Ty::I64 ==> on_integers(op, a, b, value(w, r1, v))
            &&& ty == Ty::F64 ==> on_floats(w.floats, op, a, b, value(w, r1, v))
            &&& r1.mem == r.mem && r1.log == r.log
        }),
{
    reveal(low_binary);
    let (g1, (v, t)) = low_binary(g, op, (left, ty), (right, ty))->Ok_0;
    let n = r.pc;
    assert(code[n] == g1.code[n]);
    let (a, b) = (value(w, r, left), value(w, r, right));
    lemma_wraps(a + b);
    lemma_wraps(a - b);
    lemma_wraps(a * b);
    lemma_wraps(divided(a, b));
    assert forall|q: int| b != 0 && #[trigger] quotient(a, b, q) implies divided(a, b) == q by {
        lemma_quotient(a, b, q);
    }
}

/// Two truth values are compared.
pub proof fn law_truth_is_compared(
    code: Seq<Ins>,
    w: World,
    r: Running,
    g: Gen,
    op: BinOp,
    left: Val,
    right: Val,
)
    requires
        op == BinOp::Eq || op == BinOp::Ne,
        low_binary(g, op, (left, Ty::I1), (right, Ty::I1)) matches Ok((g1, _)) ==> begins(code, g1),
        r.pc == g.code.len(),
        g.code.len() < usize::MAX,
    ensures
        low_binary(g, op, (left, Ty::I1), (right, Ty::I1)) is Ok,
        tick(code, w, Machine::On(r)) is On,
        ({
            let (v, t) = low_binary(g, op, (left, Ty::I1), (right, Ty::I1))->Ok_0.1;
            let equal = value(w, r, left) == value(w, r, right);
            let r1 = tick(code, w, Machine::On(r))->On_0;
            t == Ty::I1 && value(w, r1, v) == bit(equal == (op == BinOp::Eq))
        }),
{
    reveal(low_binary);
    let g1 = low_binary(g, op, (left, Ty::I1), (right, Ty::I1))->Ok_0.0;
    assert(code[r.pc] == g1.code[r.pc]);
}

/// A minus sign and `not` turn their operand round.
pub proof fn law_signs_compute(
    code: Seq<Ins>,
    w: World,
    r: Running,
    g: Gen,
    op: UnOp,
    ty: Ty,
    operand: Val,
)
    requires
        op == UnOp::Not ==> ty == Ty::I1 && (value(w, r, operand) == 0 || value(w, r, operand)
            == 1),
        op == UnOp::Neg ==> ty == Ty::I64 || ty == Ty::F64,
        low_unary(g, op, (operand, ty)) matches Ok((g1, _)) ==> begins(code, g1),
        r.pc == g.code.len(),
        g.code.len() < usize::MAX,
    ensures
        low_unary(g, op, (operand, ty)) is Ok,
        tick(code, w, Machine::On(r)) is On,
        ({
            let (v, t) = low_unary(g, op, (operand, ty))->Ok_0.1;
            let a = value(w, r, operand);
            let r1 = tick(code, w, Machine::On(r))->On_0;
            let x = value(w, r1, v);
            &&& t == ty
            &&& op == UnOp::Not ==> x == 1 - a
            &&& op == UnOp::Neg && ty == Ty::I64 ==> comes_out(x, -a)
            &&& op == UnOp::Neg && ty == Ty::F64 ==> x == (w.floats.negative)(a)
        }),
{
    reveal(low_unary);
    let g1 = low_unary(g, op, (operand, ty))->Ok_0.0;
    assert(code[r.pc] == g1.code[r.pc]);
    lemma_wraps(-value(w, r, operand));
    assert(0i64 ^ 1i64 == 1i64 && 1i64 ^ 1i64 == 0i64) by (bit_vector);
}

/// What the runtime is asked for by an operation on two texts.
pub open spec fn asks(op: BinOp) -> Rt {
    if op == BinOp::Add {
        Rt::StrConcat
    } else {
        Rt::StrEq
    }
}

/// Texts are joined by `+`, and compared by what they hold.
pub proof fn law_texts_are_joined_and_compared(
    code: Seq<Ins>,
    w: World,
    r: Running,
    g: Gen,
    op: BinOp,
    left: Val,
    right: Val,
)
    requires
        op == BinOp::Add || op == BinOp::Eq || op == BinOp::Ne,
        low_binary(g, op, (left, Ty::Ptr), (right, Ty::Ptr)) matches Ok((g1, _)) ==> begins(
            code,
            g1,
        ),
        r.pc == g.code.len(),
        r.passed.len() == 0,
        g.code.len() + 4 < usize::MAX,
        made_before(g, left),
        made_before(g, right),
        op == BinOp::Ne ==> ((w.returns)(r.log.len() as int) == 0 || (w.returns)(
            r.log.len() as int,
        ) == 1),
    ensures
        low_binary(g, op, (left, Ty::Ptr), (right, Ty::Ptr)) is Ok,
        ({
            let (g1, (v, t)) = low_binary(g, op, (left, Ty::Ptr), (right, Ty::Ptr))->Ok_0;
            let after = ticks(code, w, Machine::On(r), (g1.code.len() - g.code.len()) as nat);
            let given = (w.returns)(r.log.len() as int);
            &&& after is On
            &&& after->On_0.log == r.log.push(
                Event {
                    callee: Callee::Runtime(asks(op)),
                    target: 0,
                    args: seq![value(w, r, left), value(w, r, right)],
                },
            )
            &&& t == (if op == BinOp::Add {
                Ty::Ptr
            } else {
                Ty::I1
            })
            &&& value(w, after->On_0, v) == (if op == BinOp::Ne {
                1 - given
            } else {
                given
            })
        }),
{
    reveal(low_binary);
    reveal(str_op);
    reveal(call);
    let args = seq![(left, Ty::Ptr), (right, Ty::Ptr)];
    assert(args.drop_last() =~= seq![(left, Ty::Ptr)]);
    assert(args.drop_last().drop_last() =~= Seq::empty());
    reveal_with_fuel(pass, 3);
    reveal_with_fuel(ticks, 5);
    let g1 = low_binary(g, op, (left, Ty::Ptr), (right, Ty::Ptr))->Ok_0.0;
    let n = r.pc;
    assert(g1.code[n] == Ins::Arg(Ty::Ptr, left));
    assert(g1.code[n + 1] == Ins::Arg(Ty::Ptr, right));
    assert(code[n] == g1.code[n] && code[n + 1] == g1.code[n + 1] && code[n + 2] == g1.code[n
        + 2]);
    assert(r.passed.push(value(w, r, left)).push(value(w, r, right)) =~= seq![
        value(w, r, left),
        value(w, r, right),
    ]);
    if op == BinOp::Ne {
        assert(code[n + 3] == g1.code[n + 3]);
        assert(0i64 ^ 1i64 == 1i64 && 1i64 ^ 1i64 == 0i64) by (bit_vector);
    }
}

} // verus!
