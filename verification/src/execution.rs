//! What lowered code does when it runs: variables, fields, ranges, `and` and
//! `or`.
//!
//! Each law runs the instructions that lowering puts behind the operands, from
//! any state in which those have been evaluated; `code` is the code of the
//! whole function, which begins with what was lowered so far.
use vstd::prelude::*;
use crate::ast::{BinOp, ExprV, KindV, StmtV, Type};
use crate::flow::{has_block, lemma_body_extends, lemma_expr_extends};
use crate::ir::{Callee, Ins, Label, Mark, Op, Pred, Rt, Ty, Val};
use crate::lowering::{
    begin, bind_var, emit, field_place, flush, label, low_advance, low_body, low_expr, low_field,
    low_field_assign, low_for, low_short_circuit, low_var, pass, push_scope, reg, release, retain,
    ty_of, Cx, Gen, Value,
};
use crate::machine::{place, tick, ticks, value, wrap, Machine, Running, World};

verus! {

/// Whether `code` begins with the code of `g`.
pub open spec fn begins(code: Seq<Ins>, g: Gen) -> bool {
    &&& g.code.len() <= code.len() <= usize::MAX
    &&& forall|i: int| 0 <= i < g.code.len() ==> (#[trigger] code[i]) == g.code[i]
}

/// Whether a value is there before anything more is emitted.
pub open spec fn made_before(g: Gen, v: Val) -> bool {
    v matches Val::Reg(n) ==> n < g.code.len()
}

/// The address of the stack slot that the instruction at `at` makes.
pub open spec fn slot_of(w: World, at: int) -> int {
    (w.slots)(at)
}

proof fn lemma_two(code: Seq<Ins>, w: World, m: Machine)
    ensures
        ticks(code, w, m, 1) == tick(code, w, m),
        ticks(code, w, m, 2) == tick(code, w, tick(code, w, m)),
        ticks(code, w, m, 3) == tick(code, w, tick(code, w, tick(code, w, m))),
{
    reveal_with_fuel(ticks, 4);
}

/// A variable that is bound holds its value: the two instructions of a binding
/// put it into the variable's slot.
pub proof fn law_bindings_store_their_value(
    code: Seq<Ins>,
    w: World,
    r: Running,
    g: Gen,
    name: Seq<char>,
    ty: Type,
    v: Val,
)
    requires
        begins(code, bind_var(g, name, ty, v)),
        r.pc == g.code.len(),
        made_before(g, v),
    ensures
        ({
            let slot = slot_of(w, r.pc);
            ticks(code, w, Machine::On(r), 2) == Machine::On(
                Running {
                    pc: r.pc + 2,
                    regs: r.regs.insert(r.pc, slot),
                    mem: r.mem.insert(slot, value(w, r, v)),
                    ..r
                },
            )
        }),
{
    let n = r.pc;
    let g1 = emit(g, Ins::Alloca(ty_of(ty)));
    let g2 = bind_var(g, name, ty, v);
    lemma_two(code, w, Machine::On(r));
    assert(g2.code[n] == Ins::Alloca(ty_of(ty)));
    assert(g2.code[n + 1] == Ins::Store(ty_of(ty), v, Val::Reg(n as usize)));
    assert(code[n] == g2.code[n] && code[n + 1] == g2.code[n + 1]);
}

/// A variable that is read gives what its slot holds.
pub proof fn law_variables_are_read_from_their_slot(
    code: Seq<Ins>,
    w: World,
    r: Running,
    g: Gen,
    name: Seq<char>,
)
    requires
        low_var(g, name) matches Ok((g1, v)) && begins(code, g1),
        r.pc == g.code.len(),
    ensures
        ({
            let (slot, ty) = crate::lowering::find_var(g.vars, name)->0;
            let (g1, v) = low_var(g, name)->Ok_0;
            &&& tick(code, w, Machine::On(r)) is On
            &&& value(w, tick(code, w, Machine::On(r))->On_0, v.0) == r.mem[r.regs[slot as int]]
            &&& tick(code, w, Machine::On(r))->On_0.mem == r.mem
        }),
{
    reveal(low_var);
    let (slot, ty) = crate::lowering::find_var(g.vars, name)->0;
    let g1 = low_var(g, name)->Ok_0.0;
    assert(g1.code[r.pc] == Ins::Load(ty_of(ty), Val::Reg(slot)));
    assert(code[r.pc] == g1.code[r.pc]);
}

/// What is read from a field is what is in its place, `index` words behind the
/// start of the block.
pub proof fn law_fields_are_read_in_place(
    code: Seq<Ins>,
    w: World,
    r: Running,
    g: Gen,
    base: Val,
    index: i64,
    ty: Type,
)
    requires
        begins(code, low_field(g, base, index as int, ty).0),
        r.pc == g.code.len(),
    ensures
        ({
            let m = ticks(code, w, Machine::On(r), 2);
            &&& m is On
            &&& m->On_0.regs[r.pc + 1] == r.mem[value(w, r, base) + 8 * index]
            &&& m->On_0.mem == r.mem
            &&& low_field(g, base, index as int, ty).1.0 == Val::Reg((r.pc + 1) as usize)
        }),
{
    reveal(low_field);
    let n = r.pc;
    let g1 = emit(g, Ins::Gep(Ty::I64, base, Val::Int(index)));
    let g2 = emit(g1, Ins::Load(ty_of(ty), reg(g1)));
    let g3 = low_field(g, base, index as int, ty).0;
    lemma_two(code, w, Machine::On(r));
    lemma_counts_behind(g2, reg(g2));
    assert(g3.code[n] == g2.code[n] && g3.code[n + 1] == g2.code[n + 1]);
    assert(code[n] == g3.code[n] && code[n + 1] == g3.code[n + 1]);
    assert(g2.code[n] == Ins::Gep(Ty::I64, base, Val::Int(index)));
    assert(g2.code[n + 1] == Ins::Load(ty_of(ty), Val::Reg(n as usize)));
}

/// Counting a reference appends to the code.
proof fn lemma_counts_behind(g: Gen, v: Val)
    ensures
        retain(g, v).code == g.code + seq![
            Ins::Arg(Ty::Ptr, v),
            Ins::Call(Ty::Void, Callee::Runtime(Rt::Retain), 1),
        ],
        release(g, v).code == g.code + seq![
            Ins::Arg(Ty::Ptr, v),
            Ins::Call(Ty::Void, Callee::Runtime(Rt::Release), 1),
        ],
{
    let args = seq![(v, Ty::Ptr)];
    reveal(crate::lowering::call);
    let none = Seq::<Value>::empty();
    assert(args.drop_last() =~= none);
    assert(pass(g, none) == g);
    assert(args.last() == (v, Ty::Ptr));
    let arg = Ins::Arg(Ty::Ptr, v);
    assert(pass(g, args) == emit(g, arg));
    let up = Ins::Call(Ty::Void, Callee::Runtime(Rt::Retain), 1);
    let down = Ins::Call(Ty::Void, Callee::Runtime(Rt::Release), 1);
    assert(args.len() as usize == 1usize);
    assert(retain(g, v) == emit(emit(g, arg), up));
    assert(release(g, v) == emit(emit(g, arg), down));
    assert(g.code.push(arg).push(up) =~= g.code + seq![arg, up]);
    assert(g.code.push(arg).push(down) =~= g.code + seq![arg, down]);
}

/// Releasing temporaries appends to the code.
proof fn lemma_flush_behind(g: Gen, from: nat)
    ensures
        g.code.len() <= flush(g, from).code.len(),
        forall|i: int|
            0 <= i < g.code.len() ==> (#[trigger] flush(g, from).code[i]) == g.code[i],
    decreases g.temps.len(),
{
    if g.temps.len() > from {
        let g1 = Gen { temps: g.temps.drop_last(), ..g };
        let v = g.temps.last();
        crate::lowering::lemma_release_keeps(g1, v);
        lemma_counts_behind(g1, v);
        let g2 = release(g1, v);
        lemma_flush_behind(g2, from);
        assert forall|i: int| 0 <= i < g.code.len() implies (#[trigger] flush(g, from).code[i])
            == g.code[i] by {
            assert(flush(g2, from).code[i] == g2.code[i]);
        }
    }
}

/// A field that is assigned holds the value, and nothing else in memory
/// changes: behind the target and the value, the instructions of the
/// assignment write it in its place.
pub proof fn law_fields_hold_what_was_assigned(
    code: Seq<Ins>,
    w: World,
    r: Running,
    cx: Cx,
    g: Gen,
    target: ExprV,
    field: Seq<char>,
    value_of: ExprV,
)
    requires
        low_field_assign(cx, g, target, field, value_of) matches Ok(g9) && begins(code, g9),
        ({
            let (g1, base) = low_expr(cx, g, target)->Ok_0;
            let (g2, v) = low_expr(cx, g1, value_of)->Ok_0;
            &&& r.pc == g2.code.len()
            &&& made_before(g2, base.0)
            &&& made_before(g2, v.0)
        }),
        field_place(cx, target.ty, field) matches Some((index, ty)) && 0 <= index <= i64::MAX,
    ensures
        ({
            let (index, ty) = field_place(cx, target.ty, field)->0;
            let (g1, base) = low_expr(cx, g, target)->Ok_0;
            let (g2, v) = low_expr(cx, g1, value_of)->Ok_0;
            let steps = if ty.heap() {
                5nat
            } else {
                2
            };
            let m = ticks(code, w, Machine::On(r), steps);
            &&& m is On
            &&& m->On_0.mem == r.mem.insert(
                value(w, r, base.0) + 8 * index,
                value(w, r, v.0),
            )
        }),
{
    reveal(low_field_assign);
    reveal_with_fuel(ticks, 6);
    let (index, ty) = field_place(cx, target.ty, field)->0;
    let (g1, base) = low_expr(cx, g, target)->Ok_0;
    let (g2, v) = low_expr(cx, g1, value_of)->Ok_0;
    let g9 = low_field_assign(cx, g, target, field, value_of)->Ok_0;
    let n = r.pc;
    let gep = Ins::Gep(Ty::I64, base.0, Val::Int(index as i64));
    let g3 = emit(g2, gep);
    let slot = reg(g3);
    if ty.heap() {
        let g4 = retain(g3, v.0);
        lemma_counts_behind(g3, v.0);
        let g5 = emit(g4, Ins::Load(Ty::Ptr, slot));
        let g6 = emit(g5, Ins::Store(Ty::Ptr, v.0, slot));
        lemma_counts_behind(g6, reg(g5));
        let g7 = release(g6, reg(g5));
        lemma_flush_behind(g7, 0);
        assert(g7.code[n] == gep);
        assert(g7.code[n + 1] == Ins::Arg(Ty::Ptr, v.0));
        assert(g7.code[n + 3] == Ins::Load(Ty::Ptr, slot));
        assert(g7.code[n + 4] == Ins::Store(Ty::Ptr, v.0, slot));
        assert(forall|i: int| n <= i < n + 5 ==> code[i] == g7.code[i]) by {
            assert forall|i: int| n <= i < n + 5 implies code[i] == g7.code[i] by {
                assert(code[i] == g9.code[i]);
                assert(g9.code[i] == g7.code[i]);
            }
        }
        assert(code[n] == gep);
        assert(code[n + 1] == g7.code[n + 1] && code[n + 2] == g7.code[n + 2]);
        assert(code[n + 3] == g7.code[n + 3] && code[n + 4] == g7.code[n + 4]);
        let m1 = tick(code, w, Machine::On(r))->On_0;
        let at = value(w, r, base.0) + 8 * index;
        assert(m1.pc == n + 1 && m1.regs == r.regs.insert(n, at) && m1.mem == r.mem);
        let m2 = tick(code, w, Machine::On(m1))->On_0;
        assert(m2.pc == n + 2 && m2.regs == m1.regs && m2.mem == r.mem);
        let m3 = tick(code, w, Machine::On(m2))->On_0;
        assert(g7.code[n + 2] is Call);
        assert(m3.pc == n + 3 && m3.mem == r.mem && m3.regs[n] == at);
        let m4 = tick(code, w, Machine::On(m3))->On_0;
        assert(m4.pc == n + 4 && m4.mem == r.mem && m4.regs[n] == at);
        assert(value(w, m4, v.0) == value(w, r, v.0));
    } else {
        let g4 = emit(g3, Ins::Store(ty_of(ty), v.0, slot));
        lemma_flush_behind(g4, 0);
        assert(g4.code[n] == gep);
        assert(g4.code[n + 1] == Ins::Store(ty_of(ty), v.0, slot));
        assert(code[n] == g9.code[n] && g9.code[n] == g4.code[n]);
        assert(code[n + 1] == g9.code[n + 1] && g9.code[n + 1] == g4.code[n + 1]);
    }
}

/// A field that is read gives back what was assigned to it, as long as nothing
/// else was stored in its place.
pub proof fn law_fields_give_back_what_was_assigned(
    code: Seq<Ins>,
    w: World,
    r: Running,
    cx: Cx,
    g: Gen,
    target: ExprV,
    field: Seq<char>,
    value_of: ExprV,
    later: Running,
    gr: Gen,
    from: Val,
)
    requires
        low_field_assign(cx, g, target, field, value_of) matches Ok(g9) && begins(code, g9),
        ({
            let (g1, base) = low_expr(cx, g, target)->Ok_0;
            let (g2, v) = low_expr(cx, g1, value_of)->Ok_0;
            let (index, ty) = field_place(cx, target.ty, field)->0;
            let at = value(w, r, base.0) + 8 * index;
            let steps = if ty.heap() {
                5nat
            } else {
                2
            };
            &&& r.pc == g2.code.len()
            &&& made_before(g2, base.0)
            &&& made_before(g2, v.0)
            &&& 0 <= index <= i64::MAX
            &&& later.mem[at] == ticks(code, w, Machine::On(r), steps)->On_0.mem[at]
            &&& value(w, later, from) == value(w, r, base.0)
            &&& begins(code, low_field(gr, from, index, ty).0)
            &&& later.pc == gr.code.len()
        }),
    ensures
        ({
            let (g1, base) = low_expr(cx, g, target)->Ok_0;
            let (g2, v) = low_expr(cx, g1, value_of)->Ok_0;
            let m = ticks(code, w, Machine::On(later), 2);
            &&& m is On
            &&& m->On_0.regs[later.pc + 1] == value(w, r, v.0)
        }),
{
    let (index, ty) = field_place(cx, target.ty, field)->0;
    reveal(low_field_assign);
    law_fields_hold_what_was_assigned(code, w, r, cx, g, target, field, value_of);
    law_fields_are_read_in_place(code, w, later, gr, from, index as i64, ty);
}

/// The bounds of a counting loop, evaluated.
pub open spec fn bounds_of(cx: Cx, g: Gen, s: StmtV) -> (Gen, Val, Val) {
    let (g1, from) = low_expr(cx, g, s->For_start)->Ok_0;
    let (g2, to) = low_expr(cx, g1, s->For_end)->Ok_0;
    (g2, from.0, to.0)
}

/// The state behind the binding of the counter.
pub open spec fn counter_of(cx: Cx, g: Gen, s: StmtV) -> Gen {
    let (g2, from, to) = bounds_of(cx, g, s);
    bind_var(push_scope(flush(g2, 0)), s->For_var, Type::Int, from)
}

/// `range(a, b)` counts to just before `b`: at the test of a lowered loop, two
/// instructions behind the binding of its counter, control goes on to the body
/// as long as the counter is less than `b`, and else to the end of the loop.
pub proof fn law_ranges_end_before_their_bound(
    code: Seq<Ins>,
    w: World,
    r: Running,
    cx: Cx,
    g: Gen,
    s: StmtV,
)
    requires
        s is For,
        has_block(g.code, g.here),
        low_for(cx, g, s) matches Ok(g9) && begins(code, g9),
        made_before(bounds_of(cx, g, s).0, bounds_of(cx, g, s).2),
        r.pc == counter_of(cx, g, s).code.len() + 2,
    ensures
        ({
            let g3 = counter_of(cx, g, s);
            let counter = r.mem[r.regs[g3.code.len() - 2]];
            let m = ticks(code, w, Machine::On(r), 3);
            let l = if counter < value(w, r, bounds_of(cx, g, s).2) {
                label(g3, Mark::ForBody)
            } else {
                label(g3, Mark::ForEnd)
            };
            &&& m is On
            &&& m->On_0.pc == place(code, l)
            &&& m->On_0.mem == r.mem
        }),
{
    if let StmtV::For { var, start, end, body, line } = s {
        let (g2, from, to) = bounds_of(cx, g, s);
        let g9 = low_for(cx, g, s)->Ok_0;
        let g3 = counter_of(cx, g, s);
        let slot = (g3.code.len() - 2) as usize;
        let test = label(g3, Mark::ForCond);
        let inside = label(g3, Mark::ForBody);
        let next = label(g3, Mark::ForInc);
        let out = label(g3, Mark::ForEnd);
        let g4 = begin(emit(g3, Ins::Br(test)), test);
        let load = Ins::Load(Ty::I64, Val::Reg(slot));
        let g5 = emit(g4, load);
        let less = Ins::Cmp(Pred::Slt, Ty::I64, reg(g5), to);
        let g6 = emit(g5, less);
        let branch = Ins::CondBr(reg(g6), inside, out);
        let g7 = begin(emit(g6, branch), inside);
        let n = r.pc;
        lemma_flush_behind(g2, 0);
        assert(g7.code[g7.code.len() - 1] == Ins::Label(inside));
        lemma_body_extends(cx, g7, body, next, out);
        let g8 = low_body(cx, g7, body, next, out)->Ok_0;
        let ga = begin(g8, next);
        let gb = low_advance(ga, slot, test);
        reveal(low_advance);
        assert(forall|i: int| 0 <= i < g7.code.len() ==> gb.code[i] == g7.code[i]);
        assert(n == g4.code.len());
        assert(g7.code[n] == load && g7.code[n + 1] == less && g7.code[n + 2] == branch);
        assert(g9.code[n] == load && g9.code[n + 1] == less && g9.code[n + 2] == branch);
        assert(code[n] == g9.code[n] && code[n + 1] == g9.code[n + 1]);
        assert(code[n + 2] == g9.code[n + 2]);
        lemma_two(code, w, Machine::On(r));
    }
}

/// Between two rounds the counter goes up by one, and control is back at the
/// test.
pub proof fn law_ranges_count_by_one(
    code: Seq<Ins>,
    w: World,
    r: Running,
    g: Gen,
    slot: usize,
    test: Label,
)
    requires
        begins(code, low_advance(g, slot, test)),
        r.pc == g.code.len(),
        slot < g.code.len(),
    ensures
        ({
            let at = r.regs[slot as int];
            let m = ticks(code, w, Machine::On(r), 4);
            &&& m is On
            &&& m->On_0.pc == place(code, test)
            &&& m->On_0.mem == r.mem.insert(at, wrap(r.mem[at] + 1))
        }),
{
    reveal(low_advance);
    reveal_with_fuel(ticks, 5);
    let g1 = emit(g, Ins::Load(Ty::I64, Val::Reg(slot)));
    let g2 = emit(g1, Ins::Bin(Op::Add, Ty::I64, reg(g1), Val::Int(1)));
    let g4 = low_advance(g, slot, test);
    let n = r.pc;
    assert(g4.code[n] == Ins::Load(Ty::I64, Val::Reg(slot)));
    assert(g4.code[n + 1] == Ins::Bin(Op::Add, Ty::I64, Val::Reg(n as usize), Val::Int(1)));
    assert(g4.code[n + 2] == Ins::Store(Ty::I64, Val::Reg((n + 1) as usize), Val::Reg(slot)));
    assert(g4.code[n + 3] == Ins::Br(test));
    assert(code[n] == g4.code[n] && code[n + 1] == g4.code[n + 1]);
    assert(code[n + 2] == g4.code[n + 2] && code[n + 3] == g4.code[n + 3]);
}

/// Whether the left operand of `and` or `or` decides.
pub open spec fn decides(op: BinOp, left: int) -> bool {
    (left != 0) == (op == BinOp::Or)
}

/// `and` and `or` do not evaluate their right operand where the left one
/// decides: behind the left operand control goes to the end of the expression,
/// and to the code of the right operand only where the left one does not
/// decide.
pub proof fn law_short_circuits(
    code: Seq<Ins>,
    w: World,
    r: Running,
    cx: Cx,
    g: Gen,
    e: ExprV,
)
    requires
        e.kind matches KindV::Binary(a, op, b) && (op == BinOp::And || op == BinOp::Or),
        has_block(g.code, g.here),
        low_short_circuit(cx, g, e) matches Ok((g7, v)) && begins(code, g7),
        r.pc == left_of(cx, g, e).0.code.len(),
    ensures
        ({
            let (g2, l) = left_of(cx, g, e);
            let op = e.kind->Binary_1;
            let m = tick(code, w, Machine::On(r));
            &&& m is On
            &&& m->On_0.before == r.here
            &&& m->On_0.pc == place(
                code,
                if decides(op, value(w, r, l)) {
                    label(g2, Mark::ScEnd)
                } else {
                    label(g2, Mark::ScRhs)
                },
            )
        }),
{
    if let KindV::Binary(a, op, b) = e.kind {
        let (g2, l) = left_of(cx, g, e);
        let rhs = label(g2, Mark::ScRhs);
        let end = label(g2, Mark::ScEnd);
        let branch = if op == BinOp::And {
            Ins::CondBr(l, rhs, end)
        } else {
            Ins::CondBr(l, end, rhs)
        };
        let g3 = begin(emit(g2, branch), rhs);
        assert(g3.code[g3.code.len() - 1] == Ins::Label(rhs));
        lemma_expr_extends(cx, g3, *b);
        let (g4, x) = low_expr(cx, g3, *b)->Ok_0;
        lemma_flush_behind(g4, g.temps.len());
        let g7 = low_short_circuit(cx, g, e)->Ok_0.0;
        let n = r.pc;
        assert(g3.code[n] == branch);
        assert(g4.code[n] == branch);
        assert(flush(g4, g.temps.len()).code[n] == branch);
        assert(g7.code[n] == branch);
        assert(code[n] == g7.code[n]);
    }
}

/// The left operand of `and` or `or`, evaluated.
pub open spec fn left_of(cx: Cx, g: Gen, e: ExprV) -> (Gen, Val) {
    let (g1, l) = low_expr(cx, g, *e.kind->Binary_0)->Ok_0;
    (flush(g1, g.temps.len()), l.0)
}

/// The right operand of `and` or `or`.
pub open spec fn right_of(cx: Cx, g: Gen, e: ExprV) -> Val {
    let (g2, l) = left_of(cx, g, e);
    let rhs = label(g2, Mark::ScRhs);
    let end = label(g2, Mark::ScEnd);
    let branch = if e.kind->Binary_1 == BinOp::And {
        Ins::CondBr(l, rhs, end)
    } else {
        Ins::CondBr(l, end, rhs)
    };
    low_expr(cx, begin(emit(g2, branch), rhs), *e.kind->Binary_2)->Ok_0.1.0
}

/// The result of `and` and `or`: where control came from the left operand,
/// which decided, `or` is true and `and` is false; else it is the right
/// operand.
pub proof fn law_short_circuits_come_to(
    code: Seq<Ins>,
    w: World,
    r: Running,
    cx: Cx,
    g: Gen,
    e: ExprV,
)
    requires
        e.kind matches KindV::Binary(a, op, b) && (op == BinOp::And || op == BinOp::Or),
        low_short_circuit(cx, g, e) matches Ok((g7, v)) && begins(code, g7),
        r.pc == low_short_circuit(cx, g, e)->Ok_0.0.code.len() - 1,
    ensures
        ({
            let v = low_short_circuit(cx, g, e)->Ok_0.1;
            let m = tick(code, w, Machine::On(r));
            &&& m is On
            &&& value(w, m->On_0, v.0) == (if r.before == left_of(cx, g, e).0.here {
                if e.kind->Binary_1 == BinOp::Or {
                    1int
                } else {
                    0
                }
            } else {
                value(w, r, right_of(cx, g, e))
            })
        }),
{
    if let KindV::Binary(a, op, b) = e.kind {
        let g7 = low_short_circuit(cx, g, e)->Ok_0.0;
        let n = r.pc;
        assert(g7.code[n] is Phi);
        assert(code[n] == g7.code[n]);
    }
}

} // verus!
