//! What lowered code asks the runtime for, and what it makes of the answers:
//! elements of arrays, blocks for structs and enums, the arms of a match.
use vstd::prelude::*;
use crate::ast::Type;
use crate::execution::{begins, made_before};
use crate::flow::closed_flow;
use crate::ir::{Callee, Ins, Label, Pred, Rt, Ty, Val};
use crate::lowering::{
    any_heap, arm_test, call, call_rt, emit, enum_owns, field_types, fill, foreach_take,
    foreach_test, from_word, low_index, low_push, low_struct, low_variant, new_block, pass, reg,
    retain, to_word, ty_of, Cx, Gen, Value,
};
use crate::machine::{lemma_ticks_sum, place, tick, ticks, value, Event, Machine, Running, World};

verus! {

// ----- calls -------------------------------------------------------------------------------------
/// The values of arguments.
pub open spec fn given(w: World, r: Running, args: Seq<Value>) -> Seq<int> {
    Seq::new(args.len(), |i: int| value(w, r, args[i].0))
}

/// The state behind a call: what was passed is recorded, in order, and the answer
/// is in the register of the call.
pub open spec fn called(w: World, r: Running, callee: Callee, args: Seq<Value>) -> Running {
    let n = args.len() as int;
    Running {
        pc: r.pc + n + 1,
        regs: r.regs.insert(r.pc + n, (w.returns)(r.log.len() as int)),
        log: r.log.push(Event { callee, target: 0, args: given(w, r, args) }),
        ..r
    }
}

proof fn lemma_pass(code: Seq<Ins>, w: World, r: Running, g: Gen, args: Seq<Value>)
    requires
        begins(code, pass(g, args)),
        r.pc == g.code.len(),
        r.passed.len() == 0,
    ensures
        pass(g, args).code.len() == g.code.len() + args.len(),
        forall|i: int| 0 <= i < g.code.len() ==> (#[trigger] pass(g, args).code[i]) == g.code[i],
        ticks(code, w, Machine::On(r), args.len()) == Machine::On(
            Running { pc: r.pc + args.len(), passed: given(w, r, args), ..r },
        ),
    decreases args.len(),
{
    if args.len() == 0 {
        assert(r.passed =~= given(w, r, args));
    } else {
        let less = args.drop_last();
        let g1 = pass(g, less);
        let g2 = pass(g, args);
        assert forall|i: int| 0 <= i < g1.code.len() implies (#[trigger] code[i]) == g1.code[i] by {
            assert(g2.code[i] == g1.code[i]);
        }
        lemma_pass(code, w, r, g, less);
        let n = r.pc + less.len();
        assert(g2.code[n] == Ins::Arg(args.last().1, args.last().0));
        assert(code[n] == g2.code[n]);
        lemma_ticks_sum(code, w, Machine::On(r), less.len(), 1);
        reveal_with_fuel(ticks, 2);
        assert(given(w, r, less).push(value(w, r, args.last().0)) =~= given(w, r, args));
    }
}

proof fn lemma_call(
    code: Seq<Ins>,
    w: World,
    r: Running,
    g: Gen,
    ret: Ty,
    callee: Callee,
    args: Seq<Value>,
)
    requires
        begins(code, call(g, ret, callee, args)),
        r.pc == g.code.len(),
        r.passed.len() == 0,
        !(callee is Pointer),
    ensures
        call(g, ret, callee, args).code.len() == g.code.len() + args.len() + 1,
        forall|i: int|
            0 <= i < g.code.len() ==> (#[trigger] call(g, ret, callee, args).code[i]) == g.code[i],
        ticks(code, w, Machine::On(r), args.len() + 1) == Machine::On(called(w, r, callee, args)),
{
    reveal(call);
    let g1 = pass(g, args);
    let g2 = call(g, ret, callee, args);
    assert forall|i: int| 0 <= i < g1.code.len() implies (#[trigger] code[i]) == g1.code[i] by {
        assert(g2.code[i] == g1.code[i]);
    }
    lemma_pass(code, w, r, g, args);
    let n = r.pc + args.len();
    assert(g2.code[n] == Ins::Call(ret, callee, args.len() as usize));
    assert(code[n] == g2.code[n]);
    lemma_ticks_sum(code, w, Machine::On(r), args.len(), 1);
    reveal_with_fuel(ticks, 2);
    assert(r.passed =~= Seq::empty());
}

/// Arguments are passed in order, and what is called answers in the register of
/// the call.
pub proof fn law_calls_pass_their_arguments(
    code: Seq<Ins>,
    w: World,
    r: Running,
    g: Gen,
    ret: Ty,
    callee: Callee,
    args: Seq<Value>,
)
    requires
        begins(code, call(g, ret, callee, args)),
        r.pc == g.code.len(),
        r.passed.len() == 0,
        !(callee is Pointer),
    ensures
        ({
            let g1 = call(g, ret, callee, args);
            let m = ticks(code, w, Machine::On(r), (g1.code.len() - g.code.len()) as nat);
            &&& m is On && m->On_0.pc == g1.code.len()
            &&& m->On_0.mem == r.mem
            &&& m->On_0.log == r.log.push(Event { callee, target: 0, args: given(w, r, args) })
            &&& value(w, m->On_0, reg(g1)) == (w.returns)(r.log.len() as int)
        }),
{
    lemma_call(code, w, r, g, ret, callee, args);
}

// ----- elements ----------------------------------------------------------------------------------
/// An element is what the runtime answers when it is asked for the one at the
/// index.
pub proof fn law_elements_are_asked_for(
    code: Seq<Ins>,
    w: World,
    r: Running,
    g: Gen,
    arr: Val,
    index: Val,
    elem: Type,
)
    requires
        begins(code, low_index(g, arr, index, elem).0),
        r.pc == g.code.len(),
        r.passed.len() == 0,
    ensures
        ({
            let (g1, v) = low_index(g, arr, index, elem);
            let m = ticks(code, w, Machine::On(r), (g1.code.len() - g.code.len()) as nat);
            &&& m is On
            &&& m->On_0.mem == r.mem
            &&& m->On_0.log == r.log.push(
                Event {
                    callee: Callee::Runtime(Rt::ArrGet),
                    target: 0,
                    args: seq![value(w, r, arr), value(w, r, index)],
                },
            )
            &&& value(w, m->On_0, v.0) == (w.returns)(r.log.len() as int)
            &&& v.1 == ty_of(elem)
        }),
{
    reveal(low_index);
    let args = seq![(arr, Ty::Ptr), (index, Ty::I64)];
    let g1 = call_rt(g, Ty::I64, Rt::ArrGet, args);
    let (g2, v) = from_word(g1, reg(g1), elem);
    let g9 = low_index(g, arr, index, elem).0;
    assert(g9.code == g2.code);
    assert forall|i: int| 0 <= i < g1.code.len() implies (#[trigger] code[i]) == g1.code[i] by {
        assert(g9.code[i] == g1.code[i]);
    }
    lemma_call(code, w, r, g, Ty::I64, Callee::Runtime(Rt::ArrGet), args);
    assert(given(w, r, args) =~= seq![value(w, r, arr), value(w, r, index)]);
    let n = r.pc + 3;
    if g2.code.len() > g1.code.len() {
        assert(code[n] == g9.code[n]);
        lemma_ticks_sum(code, w, Machine::On(r), 3, 1);
        reveal_with_fuel(ticks, 2);
    }
}

/// What is pushed is handed to the runtime with the array.
pub proof fn law_elements_are_handed_over(
    code: Seq<Ins>,
    w: World,
    r: Running,
    g: Gen,
    arr: Val,
    v: Val,
    elem: Type,
)
    requires
        begins(code, low_push(g, arr, v, elem)),
        r.pc == g.code.len(),
        r.passed.len() == 0,
        made_before(g, arr),
        made_before(g, v),
    ensures
        ({
            let g1 = low_push(g, arr, v, elem);
            let m = ticks(code, w, Machine::On(r), (g1.code.len() - g.code.len()) as nat);
            &&& m is On
            &&& m->On_0.mem == r.mem
            &&& m->On_0.log == r.log.push(
                Event {
                    callee: Callee::Runtime(Rt::ArrPush),
                    target: 0,
                    args: seq![value(w, r, arr), value(w, r, v)],
                },
            )
        }),
{
    reveal(low_push);
    let (g1, x) = to_word(g, v, elem);
    let args = seq![(arr, Ty::Ptr), (x, Ty::I64)];
    let g9 = low_push(g, arr, v, elem);
    let n = r.pc;
    let r1 = if g1.code.len() > g.code.len() {
        Running { pc: n + 1, regs: r.regs.insert(n, value(w, r, v)), ..r }
    } else {
        r
    };
    lemma_call(code, w, r1, g1, Ty::Void, Callee::Runtime(Rt::ArrPush), args);
    if g1.code.len() > g.code.len() {
        assert(g9.code[n] == g1.code[n]);
        assert(code[n] == g9.code[n]);
        reveal_with_fuel(ticks, 2);
        assert(ticks(code, w, Machine::On(r), 1) == Machine::On(r1));
        lemma_ticks_sum(code, w, Machine::On(r), 1, 3);
    }
    assert(given(w, r1, args) =~= seq![value(w, r, arr), value(w, r, v)]);
}

// ----- loops over arrays -------------------------------------------------------------------------
/// A loop over an array goes on as long as its position is less than the length
/// that the array has by then.
pub proof fn law_arrays_are_walked_to_their_end(
    code: Seq<Ins>,
    w: World,
    r: Running,
    g: Gen,
    arr: Val,
    at: usize,
    inside: Label,
    out: Label,
)
    requires
        begins(code, foreach_test(g, arr, at, inside, out)),
        r.pc == g.code.len(),
        made_before(g, arr),
        at < g.code.len(),
    ensures
        ({
            let m = ticks(code, w, Machine::On(r), 4);
            &&& m is On && m->On_0.mem == r.mem
            &&& m->On_0.pc == place(
                code,
                if r.mem[r.regs[at as int]] < r.mem[value(w, r, arr)] {
                    inside
                } else {
                    out
                },
            )
        }),
{
    reveal(foreach_test);
    reveal_with_fuel(ticks, 5);
    let g4 = foreach_test(g, arr, at, inside, out);
    let n = r.pc;
    assert(g4.code[n] == Ins::Load(Ty::I64, Val::Reg(at)));
    assert(g4.code[n + 1] == Ins::Load(Ty::I64, arr));
    assert(g4.code[n + 2] == Ins::Cmp(
        Pred::Slt,
        Ty::I64,
        Val::Reg(n as usize),
        Val::Reg((n + 1) as usize),
    ));
    assert(g4.code[n + 3] == Ins::CondBr(Val::Reg((n + 2) as usize), inside, out));
    assert(code[n] == g4.code[n] && code[n + 1] == g4.code[n + 1]);
    assert(code[n + 2] == g4.code[n + 2] && code[n + 3] == g4.code[n + 3]);
}

/// The variable of a loop over an array takes the element at the position.
pub proof fn law_elements_are_taken_in_turn(
    code: Seq<Ins>,
    w: World,
    r: Running,
    g: Gen,
    arr: Val,
    at: usize,
    slot: usize,
    elem: Type,
)
    requires
        begins(code, foreach_take(g, arr, at, slot, elem)),
        r.pc == g.code.len(),
        r.passed.len() == 0,
        made_before(g, arr),
        at < g.code.len(),
        slot < g.code.len(),
    ensures
        ({
            let g1 = foreach_take(g, arr, at, slot, elem);
            let m = ticks(code, w, Machine::On(r), (g1.code.len() - g.code.len()) as nat);
            &&& m is On
            &&& m->On_0.log == r.log.push(
                Event {
                    callee: Callee::Runtime(Rt::ArrGet),
                    target: 0,
                    args: seq![value(w, r, arr), r.mem[r.regs[at as int]]],
                },
            )
            &&& m->On_0.mem == r.mem.insert(
                r.regs[slot as int],
                (w.returns)(r.log.len() as int),
            )
        }),
{
    reveal(foreach_take);
    let g1 = emit(g, Ins::Load(Ty::I64, Val::Reg(at)));
    let args = seq![(arr, Ty::Ptr), (reg(g1), Ty::I64)];
    let g2 = call_rt(g1, Ty::I64, Rt::ArrGet, args);
    let (g3, v) = from_word(g2, reg(g2), elem);
    let g9 = foreach_take(g, arr, at, slot, elem);
    let n = r.pc;
    assert forall|i: int| 0 <= i < g2.code.len() implies (#[trigger] code[i]) == g2.code[i] by {
        assert(g9.code[i] == g2.code[i]);
    }
    let r1 = Running { pc: n + 1, regs: r.regs.insert(n, r.mem[r.regs[at as int]]), ..r };
    lemma_call(code, w, r1, g1, Ty::I64, Callee::Runtime(Rt::ArrGet), args);
    assert(g2.code[n] == g1.code[n]);
    assert(code[n] == g2.code[n]);
    reveal_with_fuel(ticks, 3);
    assert(ticks(code, w, Machine::On(r), 1) == Machine::On(r1));
    lemma_ticks_sum(code, w, Machine::On(r), 1, 3);
    assert(given(w, r1, args) =~= seq![value(w, r, arr), r.mem[r.regs[at as int]]]);
    let r2 = called(w, r1, Callee::Runtime(Rt::ArrGet), args);
    assert(ticks(code, w, Machine::On(r), 4) == Machine::On(r2));
    assert(code[n + 4] == g9.code[n + 4]);
    if g3.code.len() > g2.code.len() {
        assert(code[n + 5] == g9.code[n + 5]);
        lemma_ticks_sum(code, w, Machine::On(r), 4, 2);
    } else {
        lemma_ticks_sum(code, w, Machine::On(r), 4, 1);
    }
}

// ----- matches -----------------------------------------------------------------------------------
/// An arm for a variant is entered just where the tag is that of the variant, and
/// an arm for what is left over always; else control goes to the next arm.
pub proof fn law_arms_are_entered_by_tag(
    code: Seq<Ins>,
    w: World,
    r: Running,
    g: Gen,
    tag: Val,
    vid: Option<int>,
)
    requires
        begins(code, arm_test(g, tag, vid).0),
        closed_flow(code),
        r.pc == g.code.len(),
        vid matches Some(v) ==> 0 <= v <= i64::MAX,
    ensures
        ({
            let (g1, next) = arm_test(g, tag, vid);
            let m = ticks(
                code,
                w,
                Machine::On(r),
                if vid is Some {
                    2
                } else {
                    1
                },
            );
            let enters = vid matches Some(v) ==> value(w, r, tag) == v;
            &&& m is On && m->On_0.mem == r.mem && m->On_0.log == r.log
            &&& enters ==> m->On_0.pc == g1.code.len() - 1
            &&& !enters ==> m->On_0.pc == place(code, next)
        }),
{
    reveal(arm_test);
    reveal_with_fuel(ticks, 3);
    let (g1, next) = arm_test(g, tag, vid);
    let n = r.pc;
    let last = g1.code.len() - 1;
    assert(code[n] == g1.code[n]);
    assert(code[last] == g1.code[last]);
    let here = g1.here;
    assert(g1.code[last] == Ins::Label(here));
    let k = place(code, here);
    assert(0 <= k < code.len() && code[k] == Ins::Label(here));
    assert(k == last) by {
        if k < last {
            assert(code[k] is Label && code[last] is Label);
        } else if last < k {
            assert(code[last] is Label && code[k] is Label);
        }
    }
    if vid is Some {
        assert(code[n + 1] == g1.code[n + 1]);
    }
}

// ----- blocks ------------------------------------------------------------------------------------
/// A value is retained by a call, which changes no memory.
proof fn lemma_retain(code: Seq<Ins>, w: World, r: Running, g: Gen, v: Val) -> (r1: Running)
    requires
        begins(code, retain(g, v)),
        r.pc == g.code.len(),
        r.passed.len() == 0,
    ensures
        retain(g, v).code.len() == g.code.len() + 2,
        forall|i: int| 0 <= i < g.code.len() ==> (#[trigger] retain(g, v).code[i]) == g.code[i],
        ticks(code, w, Machine::On(r), 2) == Machine::On(r1),
        r1.pc == r.pc + 2 && r1.mem == r.mem && r1.passed.len() == 0,
        forall|k: int| k < r.pc ==> r1.regs[k] == r.regs[k],
{
    let args = seq![(v, Ty::Ptr)];
    lemma_call(code, w, r, g, Ty::Void, Callee::Runtime(Rt::Retain), args);
    called(w, r, Callee::Runtime(Rt::Retain), args)
}

/// The words of a block take the values: the `i`th of them goes to the word `i`
/// places behind the first.
proof fn lemma_fill(
    code: Seq<Ins>,
    w: World,
    r: Running,
    g: Gen,
    block: Val,
    at: nat,
    types: Seq<Type>,
    vals: Seq<Value>,
) -> (r1: Running)
    requires
        begins(code, fill(g, block, at, types, vals)),
        r.pc == g.code.len(),
        r.passed.len() == 0,
        at + vals.len() <= i64::MAX,
        made_before(g, block),
        forall|i: int| 0 <= i < vals.len() ==> made_before(g, (#[trigger] vals[i]).0),
    ensures
        fill(g, block, at, types, vals).code.len() >= g.code.len(),
        forall|i: int|
            0 <= i < g.code.len() ==> (#[trigger] fill(g, block, at, types, vals).code[i])
                == g.code[i],
        ticks(
            code,
            w,
            Machine::On(r),
            (fill(g, block, at, types, vals).code.len() - g.code.len()) as nat,
        ) == Machine::On(r1),
        r1.pc == fill(g, block, at, types, vals).code.len(),
        r1.passed.len() == 0,
        forall|k: int| k < r.pc ==> r1.regs[k] == r.regs[k],
        forall|i: int|
            0 <= i < vals.len() ==> r1.mem[value(w, r, block) + 8 * (at + i)] == value(
                w,
                r,
                (#[trigger] vals[i]).0,
            ),
        forall|p: int|
            !(value(w, r, block) + 8 * at <= p < value(w, r, block) + 8 * (at + vals.len()))
                ==> #[trigger] r1.mem[p] == r.mem[p],
    decreases vals.len(),
{
    if vals.len() == 0 {
        r
    } else {
        let less = vals.drop_last();
        let i = vals.len() - 1;
        let v = vals[i].0;
        let g1 = fill(g, block, at, types, less);
        let g2 = if types[i].heap() {
            retain(g1, v)
        } else {
            g1
        };
        let gep = Ins::Gep(Ty::I64, block, Val::Int((at + i) as i64));
        let g3 = emit(g2, gep);
        let store = Ins::Store(ty_of(types[i]), v, reg(g3));
        let g9 = fill(g, block, at, types, vals);
        assert(g9.code == g2.code.push(gep).push(store));
        assert(begins(code, g2)) by {
            assert forall|k: int| 0 <= k < g2.code.len() implies (#[trigger] code[k])
                == g2.code[k] by {
                assert(g9.code[k] == g2.code[k]);
            }
        }
        lemma_retained_front(g1, v);
        assert(begins(code, g1));
        assert forall|k: int| 0 <= k < less.len()
            implies made_before(g, (#[trigger] less[k]).0) by {
            assert(less[k] == vals[k]);
        }
        let ra = lemma_fill(code, w, r, g, block, at, types, less);
        let na = (g1.code.len() - g.code.len()) as nat;
        let rb = if types[i].heap() {
            lemma_retain(code, w, ra, g1, v)
        } else {
            ra
        };
        let nb = (g2.code.len() - g.code.len()) as nat;
        if types[i].heap() {
            lemma_ticks_sum(code, w, Machine::On(r), na, 2);
        }
        assert(ticks(code, w, Machine::On(r), nb) == Machine::On(rb));
        let n = rb.pc;
        assert(g9.code[n] == gep && g9.code[n + 1] == store);
        assert(code[n] == g9.code[n] && code[n + 1] == g9.code[n + 1]);
        lemma_ticks_sum(code, w, Machine::On(r), nb, 2);
        reveal_with_fuel(ticks, 3);
        let b = value(w, r, block);
        let place = b + 8 * (at + i);
        assert(value(w, rb, block) == b);
        assert(made_before(g, vals[i].0));
        let r1 = Running {
            pc: n + 2,
            regs: rb.regs.insert(n, place),
            mem: rb.mem.insert(place, value(w, r, v)),
            ..rb
        };
        assert(tick(code, w, tick(code, w, Machine::On(rb))) == Machine::On(r1));
        assert forall|k: int| 0 <= k < vals.len() implies r1.mem[b + 8 * (at + k)] == value(
            w,
            r,
            (#[trigger] vals[k]).0,
        ) by {
            if k < i {
                assert(less[k] == vals[k]);
            }
        }
        r1
    }
}

proof fn lemma_retained_front(g: Gen, v: Val)
    ensures
        retain(g, v).code.len() == g.code.len() + 2,
        forall|i: int| 0 <= i < g.code.len() ==> (#[trigger] retain(g, v).code[i]) == g.code[i],
{
    reveal(call);
    let args = seq![(v, Ty::Ptr)];
    assert(args.drop_last() =~= Seq::empty());
    reveal_with_fuel(pass, 2);
}

/// A struct is a fresh block that holds the values of its fields in order.
pub proof fn law_structs_hold_their_fields(
    code: Seq<Ins>,
    w: World,
    r: Running,
    cx: Cx,
    g: Gen,
    id: u32,
    vals: Seq<Value>,
)
    requires
        begins(code, low_struct(cx, g, id, vals).0),
        r.pc == g.code.len(),
        r.passed.len() == 0,
        vals.len() <= i64::MAX,
        forall|i: int| 0 <= i < vals.len() ==> made_before(g, (#[trigger] vals[i]).0),
    ensures
        ({
            let (g1, v) = low_struct(cx, g, id, vals);
            let m = ticks(code, w, Machine::On(r), (g1.code.len() - g.code.len()) as nat);
            let block = (w.returns)(r.log.len() as int);
            &&& m is On
            &&& value(w, m->On_0, v.0) == block
            &&& forall|i: int|
                0 <= i < vals.len() ==> m->On_0.mem[block + 8 * i] == value(
                    w,
                    r,
                    (#[trigger] vals[i]).0,
                )
            &&& forall|p: int|
                !(block <= p < block + 8 * vals.len()) ==> #[trigger] m->On_0.mem[p] == r.mem[p]
        }),
{
    reveal(low_struct);
    let types = field_types(cx.structs[id as int]);
    let kind = if any_heap(types) {
        Val::DropStruct(id)
    } else {
        Val::Null
    };
    let args = seq![(kind, Ty::Ptr), (Val::Int(vals.len() as i64), Ty::I64)];
    let g1 = new_block(g, kind, vals.len());
    let block = reg(g1);
    let g9 = low_struct(cx, g, id, vals).0;
    assert(g9.code == fill(g1, block, 0, types, vals).code);
    lemma_fill_front(g1, block, 0, types, vals);
    assert(begins(code, g1));
    lemma_call(code, w, r, g, Ty::Ptr, Callee::Runtime(Rt::New), args);
    let r1 = called(w, r, Callee::Runtime(Rt::New), args);
    assert forall|i: int| 0 <= i < vals.len() implies made_before(g1, (#[trigger] vals[i]).0)
        && value(w, r1, vals[i].0) == value(w, r, vals[i].0) by {
        assert(made_before(g, vals[i].0));
    }
    let r2 = lemma_fill(code, w, r1, g1, block, 0, types, vals);
    lemma_ticks_sum(
        code,
        w,
        Machine::On(r),
        3,
        (g9.code.len() - g1.code.len()) as nat,
    );
}

proof fn lemma_fill_front(g: Gen, block: Val, at: nat, types: Seq<Type>, vals: Seq<Value>)
    ensures
        fill(g, block, at, types, vals).code.len() >= g.code.len(),
        forall|i: int|
            0 <= i < g.code.len() ==> (#[trigger] fill(g, block, at, types, vals).code[i])
                == g.code[i],
    decreases vals.len(),
{
    if vals.len() > 0 {
        let i = vals.len() - 1;
        let g1 = fill(g, block, at, types, vals.drop_last());
        lemma_fill_front(g, block, at, types, vals.drop_last());
        lemma_retained_front(g1, vals[i].0);
    }
}

/// An enum value is a fresh block that holds the number of its variant, and behind
/// it what the variant carries, in order.
pub proof fn law_variants_hold_their_payload(
    code: Seq<Ins>,
    w: World,
    r: Running,
    cx: Cx,
    g: Gen,
    eid: u32,
    vid: u32,
    vals: Seq<Value>,
)
    requires
        begins(code, low_variant(cx, g, eid, vid, vals).0),
        r.pc == g.code.len(),
        r.passed.len() == 0,
        vals.len() < i64::MAX,
        forall|i: int| 0 <= i < vals.len() ==> made_before(g, (#[trigger] vals[i]).0),
    ensures
        ({
            let (g1, v) = low_variant(cx, g, eid, vid, vals);
            let m = ticks(code, w, Machine::On(r), (g1.code.len() - g.code.len()) as nat);
            let block = (w.returns)(r.log.len() as int);
            &&& m is On
            &&& value(w, m->On_0, v.0) == block
            &&& m->On_0.mem[block] == vid
            &&& forall|i: int|
                0 <= i < vals.len() ==> m->On_0.mem[block + 8 * (1 + i)] == value(
                    w,
                    r,
                    (#[trigger] vals[i]).0,
                )
        }),
{
    reveal(low_variant);
    let def = cx.enums[eid as int];
    let types = def.variants[vid as int].fields;
    let kind = if enum_owns(def) {
        Val::DropEnum(eid)
    } else {
        Val::Null
    };
    let args = seq![(kind, Ty::Ptr), (Val::Int((vals.len() + 1) as i64), Ty::I64)];
    let g1 = new_block(g, kind, vals.len() + 1);
    let block = reg(g1);
    let store = Ins::Store(Ty::I64, Val::Int(vid as i64), block);
    let g2 = emit(g1, store);
    let g9 = low_variant(cx, g, eid, vid, vals).0;
    assert(g9.code == fill(g2, block, 1, types, vals).code);
    lemma_fill_front(g2, block, 1, types, vals);
    assert(begins(code, g2));
    assert(begins(code, g1)) by {
        assert forall|k: int| 0 <= k < g1.code.len() implies (#[trigger] code[k]) == g1.code[k] by {
            assert(g2.code[k] == g1.code[k]);
        }
    }
    lemma_call(code, w, r, g, Ty::Ptr, Callee::Runtime(Rt::New), args);
    let r1 = called(w, r, Callee::Runtime(Rt::New), args);
    let n = r1.pc;
    assert(g2.code[n] == store);
    assert(code[n] == g2.code[n]);
    let r2 = tick(code, w, Machine::On(r1))->On_0;
    lemma_ticks_sum(code, w, Machine::On(r), 3, 1);
    reveal_with_fuel(ticks, 2);
    assert(ticks(code, w, Machine::On(r), 4) == Machine::On(r2));
    assert forall|i: int| 0 <= i < vals.len() implies made_before(g2, (#[trigger] vals[i]).0)
        && value(w, r2, vals[i].0) == value(w, r, vals[i].0) by {
        assert(made_before(g, vals[i].0));
    }
    let r3 = lemma_fill(code, w, r2, g2, block, 1, types, vals);
    lemma_ticks_sum(
        code,
        w,
        Machine::On(r),
        4,
        (g9.code.len() - g2.code.len()) as nat,
    );
}

} // verus!
