//! Values come first: every value that an instruction of lowered code uses is
//! the result of an instruction before it, and the arguments of a call stand
//! directly before the call.
use vstd::prelude::*;
use crate::ast::{ArmV, BinOp, EnumV, ExprV, FunctionV, KindV, ParamV, StmtV, StructV, Type, UnOp};
use crate::counting::holder;
use crate::ir::{Callee, Ins, Label, Libc, Mark, Op, Pred, Rt, Ty, Val};
use crate::lowering::{
    all_params, any_heap, arm_test, array_kind, array_room, at_entry, begin, bind_params,
    bind_payload, bind_var, bool_text, branch_if_open, call, call_rt, consume, consume_heap,
    drop_enum, drop_struct, drop_variants, drop_words, emit, field_place, fill, find_hidden,
    find_var, flush, foreach_slots, foreach_take, foreach_test, from_word, keep_alive, label,
    lemma_release_keeps, literal, low_advance, low_arm, low_arms, low_array, low_assign, low_bare,
    low_binary, low_block, low_body, low_builtin, low_call, low_cond, low_count, low_elems,
    low_expr, low_exprs, low_field, low_field_assign, low_for, low_foreach, low_function, low_hold,
    low_if, low_index, low_index_assign, low_jump, low_len, low_let, low_match, low_method,
    low_print, low_push, low_return, low_short_circuit, low_stmt, low_stmts, low_str, low_struct,
    low_symbol, low_unary, low_var, low_variant, low_while, method_place, new_block, one_argument,
    pass, pattern_place, pop_scope, printf, push_scope, reg, release, retain, str_op, to_word,
    ty_of, with_temp, with_var, without_last, Cx, Gen, Slots, Value,
};
use crate::naming::{bare, primes};
use crate::runtime::rt_code;
use crate::shape::{self, fresh_start, ready};

verus! {

// ----- values ---------------------------------------------------------------------------------
/// Whether an instruction has a result.
pub open spec fn yields(i: Ins) -> bool {
    match i {
        Ins::Alloca(_) | Ins::Load(..) | Ins::Bin(..) | Ins::Cmp(..) | Ins::FNeg(_)
        | Ins::Convert(..) | Ins::Select(..) | Ins::Phi(..) | Ins::Gep(..) => true,
        Ins::Call(ret, _, _) => ret != Ty::Void,
        _ => false,
    }
}

/// Whether a value, if it is a result, is that of one of the first `n`
/// instructions.
pub open spec fn made_before(code: Seq<Ins>, n: int, v: Val) -> bool {
    v matches Val::Reg(r) ==> r < n && yields(code[r as int])
}

/// Whether what the instruction at position `i` uses was made before it.
pub open spec fn uses_made(code: Seq<Ins>, i: int) -> bool {
    match code[i] {
        Ins::CondBr(v, _, _) => made_before(code, i, v),
        Ins::Ret(_, v) => made_before(code, i, v),
        Ins::Store(_, v, p) => made_before(code, i, v) && made_before(code, i, p),
        Ins::Load(_, p) => made_before(code, i, p),
        Ins::Bin(_, _, a, b) => made_before(code, i, a) && made_before(code, i, b),
        Ins::Cmp(_, _, a, b) => made_before(code, i, a) && made_before(code, i, b),
        Ins::FNeg(v) => made_before(code, i, v),
        Ins::Convert(_, v) => made_before(code, i, v),
        Ins::Select(c, _, a, b) => {
            &&& made_before(code, i, c)
            &&& made_before(code, i, a)
            &&& made_before(code, i, b)
        },
        Ins::Phi(_, a, _, b, _) => made_before(code, i, a) && made_before(code, i, b),
        Ins::Gep(_, p, x) => made_before(code, i, p) && made_before(code, i, x),
        Ins::Arg(_, v) => made_before(code, i, v),
        Ins::Call(_, callee, n) => {
            &&& callee matches Callee::Pointer(v) ==> made_before(code, i, v)
            &&& n <= i
            &&& forall|k: int| i - n <= k < i ==> (#[trigger] code[k]) is Arg
        },
        Ins::Memcpy(d, s, n, _) => {
            &&& made_before(code, i, d)
            &&& made_before(code, i, s)
            &&& made_before(code, i, n)
        },
        _ => true,
    }
}

/// Whether values come first in some code.
pub open spec fn in_order(code: Seq<Ins>) -> bool {
    forall|i: int| 0 <= i < code.len() ==> #[trigger] uses_made(code, i)
}

spec fn extends(a: Seq<Ins>, b: Seq<Ins>) -> bool {
    &&& a.len() <= b.len()
    &&& forall|i: int| 0 <= i < a.len() ==> #[trigger] b[i] == a[i]
}

/// Whether a value can be used by the next instruction.
spec fn made(g: Gen, v: Val) -> bool {
    g.code.len() <= usize::MAX ==> made_before(g.code, g.code.len() as int, v)
}

spec fn all_made(g: Gen, vals: Seq<Value>) -> bool {
    forall|k: int| 0 <= k < vals.len() ==> made(g, (#[trigger] vals[k]).0)
}

spec fn slots_made(g: Gen) -> bool {
    forall|i: int, name: Seq<char>|
        0 <= i < g.vars.len() && #[trigger] g.vars[i].contains_key(name) ==> made(
            g,
            Val::Reg(g.vars[i][name].0),
        )
}

spec fn temps_made(g: Gen) -> bool {
    forall|k: int| 0 <= k < g.temps.len() ==> made(g, #[trigger] g.temps[k])
}

/// Whether values come first so far, and what is at hand was made.
spec fn sound(g: Gen) -> bool {
    &&& g.code.len() <= usize::MAX ==> in_order(g.code)
    &&& slots_made(g)
    &&& temps_made(g)
}

/// What a step keeps.
spec fn goes(g: Gen, g1: Gen) -> bool {
    sound(g1) && extends(g.code, g1.code)
}

proof fn lemma_still_made(g: Gen, g1: Gen, v: Val)
    requires
        made(g, v),
        extends(g.code, g1.code),
    ensures
        made(g1, v),
{
    if let Val::Reg(r) = v {
        if g1.code.len() <= usize::MAX {
            assert(g1.code[r as int] == g.code[r as int]);
        }
    }
}

proof fn lemma_all_still(g: Gen, g1: Gen, vals: Seq<Value>)
    requires
        all_made(g, vals),
        extends(g.code, g1.code),
    ensures
        all_made(g1, vals),
{
    assert forall|k: int| 0 <= k < vals.len() implies made(g1, (#[trigger] vals[k]).0) by {
        lemma_still_made(g, g1, vals[k].0);
    }
}

proof fn lemma_goes_then(g: Gen, g1: Gen, g2: Gen)
    requires
        goes(g, g1),
        goes(g1, g2),
    ensures
        goes(g, g2),
{
    assert forall|i: int| 0 <= i < g.code.len() implies #[trigger] g2.code[i] == g.code[i] by {
        assert(g2.code[i] == g1.code[i]);
    }
}

/// Longer code with the same variables and temporaries.
proof fn lemma_longer(g: Gen, g1: Gen)
    requires
        sound(g),
        extends(g.code, g1.code),
        g1.vars == g.vars,
        g1.temps == g.temps,
        g1.code.len() <= usize::MAX ==> forall|i: int|
            g.code.len() <= i < g1.code.len() ==> #[trigger] uses_made(g1.code, i),
    ensures
        goes(g, g1),
{
    if g1.code.len() <= usize::MAX {
        assert forall|i: int| 0 <= i < g1.code.len() implies #[trigger] uses_made(g1.code, i) by {
            if i < g.code.len() {
                assert(uses_made(g.code, i));
                assert(g1.code[i] == g.code[i]);
                lemma_uses_stay(g.code, g1.code, i);
            }
        }
    }
    assert forall|i: int, name: Seq<char>|
        0 <= i < g1.vars.len() && #[trigger] g1.vars[i].contains_key(name) implies made(
        g1,
        Val::Reg(g1.vars[i][name].0),
    ) by {
        lemma_still_made(g, g1, Val::Reg(g.vars[i][name].0));
    }
    assert forall|k: int| 0 <= k < g1.temps.len() implies made(g1, #[trigger] g1.temps[k]) by {
        lemma_still_made(g, g1, g.temps[k]);
    }
}

/// What an instruction uses is still there in longer code.
proof fn lemma_uses_stay(a: Seq<Ins>, b: Seq<Ins>, i: int)
    requires
        extends(a, b),
        0 <= i < a.len(),
        uses_made(a, i),
    ensures
        uses_made(b, i),
{
    assert(b[i] == a[i]);
    assert forall|v: Val| made_before(a, i, v) implies #[trigger] made_before(b, i, v) by {
        if let Val::Reg(r) = v {
            assert(b[r as int] == a[r as int]);
        }
    }
    if let Ins::Call(_, _, n) = a[i] {
        assert forall|k: int| i - n <= k < i implies (#[trigger] b[k]) is Arg by {
            assert(b[k] == a[k]);
        }
    }
}

/// Whether what an instruction uses is at hand.
spec fn at_hand(g: Gen, i: Ins) -> bool {
    match i {
        Ins::CondBr(v, _, _) => made(g, v),
        Ins::Ret(_, v) => made(g, v),
        Ins::Store(_, v, p) => made(g, v) && made(g, p),
        Ins::Load(_, p) => made(g, p),
        Ins::Bin(_, _, a, b) => made(g, a) && made(g, b),
        Ins::Cmp(_, _, a, b) => made(g, a) && made(g, b),
        Ins::FNeg(v) => made(g, v),
        Ins::Convert(_, v) => made(g, v),
        Ins::Select(c, _, a, b) => made(g, c) && made(g, a) && made(g, b),
        Ins::Phi(_, a, _, b, _) => made(g, a) && made(g, b),
        Ins::Gep(_, p, x) => made(g, p) && made(g, x),
        Ins::Arg(_, v) => made(g, v),
        Ins::Call(..) => false,
        Ins::Memcpy(d, s, n, _) => made(g, d) && made(g, s) && made(g, n),
        _ => true,
    }
}

/// An instruction, appended.
proof fn lemma_emit(g: Gen, i: Ins)
    requires
        sound(g),
        at_hand(g, i),
    ensures
        goes(g, emit(g, i)),
        yields(i) ==> made(emit(g, i), reg(emit(g, i))),
{
    let g1 = emit(g, i);
    let n = g.code.len() as int;
    if g1.code.len() <= usize::MAX {
        assert forall|v: Val| made(g, v) implies #[trigger] made_before(g1.code, n, v) by {
            if let Val::Reg(r) = v {
                assert(g1.code[r as int] == g.code[r as int]);
            }
        }
        assert(uses_made(g1.code, n));
    }
    lemma_longer(g, g1);
}

/// Another block, begun.
proof fn lemma_begin(g: Gen, l: Label)
    requires
        sound(g),
    ensures
        goes(g, begin(g, l)),
{
    let g1 = begin(g, l);
    assert(uses_made(g1.code, g.code.len() as int));
    lemma_longer(g, g1);
}

/// Arguments, appended.
proof fn lemma_pass(g: Gen, args: Seq<Value>)
    requires
        sound(g),
        all_made(g, args),
    ensures
        goes(g, pass(g, args)),
        pass(g, args).code.len() == g.code.len() + args.len(),
        forall|k: int|
            g.code.len() <= k < pass(g, args).code.len() ==> (#[trigger] pass(g, args).code[k])
                is Arg,
        pass(g, args).vars == g.vars,
        pass(g, args).temps == g.temps,
    decreases args.len(),
{
    if args.len() > 0 {
        let less = args.drop_last();
        assert forall|k: int| 0 <= k < less.len() implies made(g, (#[trigger] less[k]).0) by {
            assert(less[k] == args[k]);
        }
        lemma_pass(g, less);
        let before = pass(g, less);
        let arg = Ins::Arg(args.last().1, args.last().0);
        assert(args.last() == args[args.len() - 1]);
        lemma_still_made(g, before, args.last().0);
        lemma_emit(before, arg);
        lemma_goes_then(g, before, emit(before, arg));
    }
}

/// A call, appended.
proof fn lemma_call(g: Gen, ret: Ty, callee: Callee, args: Seq<Value>)
    requires
        sound(g),
        all_made(g, args),
        !(callee is Pointer),
    ensures
        goes(g, call(g, ret, callee, args)),
        ret != Ty::Void ==> made(call(g, ret, callee, args), reg(call(g, ret, callee, args))),
{
    reveal(call);
    lemma_pass(g, args);
    let g1 = pass(g, args);
    let i = Ins::Call(ret, callee, args.len() as usize);
    let g2 = emit(g1, i);
    let n = g1.code.len() as int;
    if g2.code.len() <= usize::MAX {
        assert forall|k: int| n - args.len() <= k < n implies (#[trigger] g2.code[k]) is Arg by {
            assert(g2.code[k] == g1.code[k]);
        }
        assert(uses_made(g2.code, n));
    }
    lemma_longer(g1, g2);
    lemma_goes_then(g, g1, g2);
}

proof fn lemma_single(g: Gen, v: Val, t: Ty)
    requires
        made(g, v),
    ensures
        all_made(g, seq![(v, t)]),
{
}

proof fn lemma_pair(g: Gen, a: Value, b: Value)
    requires
        made(g, a.0),
        made(g, b.0),
    ensures
        all_made(g, seq![a, b]),
{
}

proof fn lemma_count(g: Gen, v: Val)
    requires
        sound(g),
        made(g, v),
    ensures
        goes(g, retain(g, v)),
        goes(g, release(g, v)),
{
    lemma_single(g, v, Ty::Ptr);
    let args = seq![(v, Ty::Ptr)];
    lemma_call(g, Ty::Void, Callee::Runtime(Rt::Retain), args);
    lemma_call(g, Ty::Void, Callee::Runtime(Rt::Release), args);
}

proof fn lemma_with_temp(g: Gen, v: Val)
    requires
        sound(g),
        made(g, v),
    ensures
        goes(g, with_temp(g, v)),
{
    let g1 = with_temp(g, v);
    assert forall|k: int| 0 <= k < g1.temps.len() implies made(g1, #[trigger] g1.temps[k]) by {
        if k < g.temps.len() {
            assert(made(g, g.temps[k]));
        }
    }
}

proof fn lemma_without(g: Gen, v: Val, n: nat)
    requires
        temps_made(g),
        n <= g.temps.len(),
    ensures
        temps_made(Gen { temps: without_last(g.temps, v, n), ..g }),
    decreases n,
{
    if n > 0 {
        if g.temps[n - 1] == v {
            let less = g.temps.remove(n - 1);
            assert forall|k: int| 0 <= k < less.len() implies made(g, #[trigger] less[k]) by {
                assert(less[k] == g.temps[if k < n - 1 {
                    k
                } else {
                    k + 1
                }]);
            }
        } else {
            lemma_without(g, v, (n - 1) as nat);
        }
    }
}

proof fn lemma_consume(g: Gen, v: Val)
    requires
        sound(g),
    ensures
        goes(g, consume(g, v)),
{
    lemma_without(g, v, g.temps.len());
}

proof fn lemma_flush(g: Gen, from: nat)
    requires
        sound(g),
    ensures
        goes(g, flush(g, from)),
    decreases g.temps.len(),
{
    if g.temps.len() > from {
        let g1 = Gen { temps: g.temps.drop_last(), ..g };
        let v = g.temps.last();
        assert(made(g, g.temps[g.temps.len() - 1]));
        assert forall|k: int| 0 <= k < g1.temps.len() implies made(g1, #[trigger] g1.temps[k]) by {
            assert(made(g, g.temps[k]));
        }
        lemma_count(g1, v);
        lemma_release_keeps(g1, v);
        let g2 = release(g1, v);
        lemma_flush(g2, from);
        assert(goes(g, g2));
        lemma_goes_then(g, g2, flush(g2, from));
    }
}

proof fn lemma_with_var(g: Gen, name: Seq<char>, slot: usize, ty: Type)
    requires
        sound(g),
        g.vars.len() > 0,
        made(g, Val::Reg(slot)),
    ensures
        goes(g, with_var(g, name, slot, ty)),
{
    let g1 = with_var(g, name, slot, ty);
    assert forall|i: int, n: Seq<char>|
        0 <= i < g1.vars.len() && #[trigger] g1.vars[i].contains_key(n) implies made(
        g1,
        Val::Reg(g1.vars[i][n].0),
    ) by {
        if !(i == g.vars.len() - 1 && n == name) {
            assert(g.vars[i].contains_key(n));
        }
    }
}

proof fn lemma_scopes(g: Gen)
    requires
        sound(g),
    ensures
        goes(g, push_scope(g)),
        g.vars.len() > 0 ==> goes(g, pop_scope(g)),
{
    let g1 = push_scope(g);
    assert forall|i: int, n: Seq<char>|
        0 <= i < g1.vars.len() && #[trigger] g1.vars[i].contains_key(n) implies made(
        g1,
        Val::Reg(g1.vars[i][n].0),
    ) by {
        assert(i < g.vars.len());
        assert(g.vars[i].contains_key(n));
    }
    if g.vars.len() > 0 {
        let g2 = pop_scope(g);
        assert forall|i: int, n: Seq<char>|
            0 <= i < g2.vars.len() && #[trigger] g2.vars[i].contains_key(n) implies made(
            g2,
            Val::Reg(g2.vars[i][n].0),
        ) by {
            assert(g.vars[i].contains_key(n));
        }
    }
}

proof fn lemma_found(g: Gen, vars: Seq<Slots>, name: Seq<char>)
    requires
        forall|i: int, n: Seq<char>|
            0 <= i < vars.len() && #[trigger] vars[i].contains_key(n) ==> made(
                g,
                Val::Reg(vars[i][n].0),
            ),
    ensures
        find_var(vars, name) matches Some((slot, ty)) ==> made(g, Val::Reg(slot)),
    decreases vars.len(),
{
    if vars.len() > 0 {
        let last = vars.len() - 1;
        if vars[last].contains_key(name) {
        } else {
            let less = vars.drop_last();
            assert forall|i: int, n: Seq<char>|
                0 <= i < less.len() && #[trigger] less[i].contains_key(n) implies made(
                g,
                Val::Reg(less[i][n].0),
            ) by {
                assert(vars[i].contains_key(n));
            }
            lemma_found(g, less, name);
        }
    }
}

proof fn lemma_hidden(g: Gen, vars: Seq<Slots>, name: Seq<char>, k: nat)
    requires
        forall|i: int, n: Seq<char>|
            0 <= i < vars.len() && #[trigger] vars[i].contains_key(n) ==> made(
                g,
                Val::Reg(vars[i][n].0),
            ),
    ensures
        find_hidden(vars, name, k) matches Some((slot, ty)) ==> made(g, Val::Reg(slot)),
    decreases vars.len(),
{
    if vars.len() > 0 {
        let less = vars.drop_last();
        assert forall|i: int, n: Seq<char>|
            0 <= i < less.len() && #[trigger] less[i].contains_key(n) implies made(
            g,
            Val::Reg(less[i][n].0),
        ) by {
            assert(vars[i].contains_key(n));
        }
        if vars[vars.len() - 1].contains_key(name) {
            if k > 0 {
                lemma_hidden(g, less, name, (k - 1) as nat);
            }
        } else {
            lemma_hidden(g, less, name, k);
        }
    }
}

proof fn lemma_slot(g: Gen, name: Seq<char>)
    requires
        sound(g),
    ensures
        find_var(g.vars, name) matches Some((slot, ty)) ==> made(g, Val::Reg(slot)),
{
    lemma_found(g, g.vars, name);
}

proof fn lemma_bind(g: Gen, name: Seq<char>, ty: Type, v: Val)
    requires
        sound(g),
        g.vars.len() > 0,
        made(g, v),
    ensures
        goes(g, bind_var(g, name, ty, v)),
{
    let slot_ins = Ins::Alloca(ty_of(ty));
    lemma_emit(g, slot_ins);
    let g1 = emit(g, slot_ins);
    let slot = (g1.code.len() - 1) as usize;
    lemma_still_made(g, g1, v);
    let store = Ins::Store(ty_of(ty), v, Val::Reg(slot));
    lemma_emit(g1, store);
    let g2 = emit(g1, store);
    lemma_still_made(g1, g2, Val::Reg(slot));
    lemma_with_var(g2, name, slot, ty);
    lemma_goes_then(g, g1, g2);
    lemma_goes_then(g, g2, with_var(g2, name, slot, ty));
}

// ----- operations -----------------------------------------------------------------------------
proof fn lemma_literal(g: Gen, s: Seq<char>)
    requires
        sound(g),
    ensures
        goes(g, literal(g, s).0),
        made(literal(g, s).0, literal(g, s).1),
{
}

proof fn lemma_words(g: Gen, v: Val, elem: Type)
    requires
        sound(g),
        made(g, v),
    ensures
        goes(g, to_word(g, v, elem).0),
        made(to_word(g, v, elem).0, to_word(g, v, elem).1),
        goes(g, from_word(g, v, elem).0),
        made(from_word(g, v, elem).0, from_word(g, v, elem).1),
{
    assert forall|c: crate::ir::Conv| #[trigger] at_hand(g, Ins::Convert(c, v)) by {}
    lemma_emit(g, Ins::Convert(crate::ir::Conv::FloatBits, v));
    lemma_emit(g, Ins::Convert(crate::ir::Conv::BoolWord, v));
    lemma_emit(g, Ins::Convert(crate::ir::Conv::PtrWord, v));
    lemma_emit(g, Ins::Convert(crate::ir::Conv::BitsFloat, v));
    lemma_emit(g, Ins::Convert(crate::ir::Conv::WordBool, v));
    lemma_emit(g, Ins::Convert(crate::ir::Conv::WordPtr, v));
}

proof fn lemma_var(g: Gen, name: Seq<char>)
    requires
        sound(g),
    ensures
        low_var(g, name) matches Ok((g1, v)) ==> goes(g, g1) && made(g1, v.0),
{
    reveal(low_var);
    lemma_slot(g, name);
    if let Some((slot, ty)) = find_var(g.vars, name) {
        lemma_emit(g, Ins::Load(ty_of(ty), Val::Reg(slot)));
    }
}

proof fn lemma_unary(g: Gen, op: UnOp, v: Value)
    requires
        sound(g),
        made(g, v.0),
    ensures
        low_unary(g, op, v) matches Ok((g1, w)) ==> goes(g, g1) && made(g1, w.0),
{
    reveal(low_unary);
    lemma_emit(g, Ins::Bin(Op::Sub, Ty::I64, Val::Int(0), v.0));
    lemma_emit(g, Ins::FNeg(v.0));
    lemma_emit(g, Ins::Bin(Op::Xor, Ty::I1, v.0, Val::Bool(true)));
}

proof fn lemma_str_op(g: Gen, op: BinOp, l: Val, r: Val)
    requires
        sound(g),
        made(g, l),
        made(g, r),
    ensures
        str_op(g, op, l, r) matches Ok((g1, w)) ==> goes(g, g1) && made(g1, w.0),
{
    reveal(str_op);
    lemma_pair(g, (l, Ty::Ptr), (r, Ty::Ptr));
    let args = seq![(l, Ty::Ptr), (r, Ty::Ptr)];
    lemma_call(g, Ty::Ptr, Callee::Runtime(Rt::StrConcat), args);
    let g1 = call_rt(g, Ty::Ptr, Rt::StrConcat, args);
    lemma_with_temp(g1, reg(g1));
    lemma_goes_then(g, g1, with_temp(g1, reg(g1)));
    lemma_call(g, Ty::I1, Callee::Runtime(Rt::StrEq), args);
    let g2 = call_rt(g, Ty::I1, Rt::StrEq, args);
    let flip = Ins::Bin(Op::Xor, Ty::I1, reg(g2), Val::Bool(true));
    lemma_emit(g2, flip);
    lemma_goes_then(g, g2, emit(g2, flip));
}

proof fn lemma_binary(g: Gen, op: BinOp, l: Value, r: Value)
    requires
        sound(g),
        made(g, l.0),
        made(g, r.0),
    ensures
        low_binary(g, op, l, r) matches Ok((g1, w)) ==> goes(g, g1) && made(g1, w.0),
{
    reveal(low_binary);
    lemma_str_op(g, op, l.0, r.0);
    if let Some((i, ty)) = crate::lowering::int_op(op, l.1, l.0, r.0) {
        lemma_emit(g, i);
    }
    if let Some((i, ty)) = crate::lowering::float_op(op, l.0, r.0) {
        lemma_emit(g, i);
    }
}

proof fn lemma_bool_text(g: Gen, v: Val)
    requires
        sound(g),
        made(g, v),
    ensures
        goes(g, bool_text(g, v).0),
        made(bool_text(g, v).0, bool_text(g, v).1),
{
    reveal(bool_text);
    let (g1, t) = literal(g, "true"@);
    let (g2, f) = literal(g1, "false"@);
    lemma_literal(g, "true"@);
    lemma_literal(g1, "false"@);
    lemma_goes_then(g, g1, g2);
    lemma_still_made(g, g2, v);
    lemma_still_made(g1, g2, t);
    let select = Ins::Select(v, Ty::Ptr, t, f);
    lemma_emit(g2, select);
    lemma_goes_then(g, g2, emit(g2, select));
}

proof fn lemma_printf(g: Gen, format: Seq<char>, v: Value)
    requires
        sound(g),
        made(g, v.0),
    ensures
        goes(g, printf(g, format, v)),
{
    reveal(printf);
    lemma_literal(g, format);
    let (g1, f) = literal(g, format);
    lemma_still_made(g, g1, v.0);
    lemma_pair(g1, (f, Ty::Ptr), v);
    let args = seq![(f, Ty::Ptr), v];
    lemma_call(g1, Ty::I32, Callee::C(Libc::Printf), args);
    lemma_goes_then(g, g1, call(g1, Ty::I32, Callee::C(Libc::Printf), args));
}

proof fn lemma_builtin(g: Gen, name: Seq<char>, v: Val, ty: Option<Type>)
    requires
        sound(g),
        made(g, v),
    ensures
        low_builtin(g, name, v, ty) matches Ok((g1, w)) ==> goes(g, g1) && (w matches Some(w)
            ==> made(g1, w.0)),
{
    reveal(low_builtin);
    if name == "print"@ {
        reveal(low_print);
        lemma_printf(g, "%lld\n"@, (v, Ty::I64));
        lemma_printf(g, "%g\n"@, (v, Ty::F64));
        lemma_printf(g, "%s\n"@, (v, Ty::Ptr));
        lemma_bool_text(g, v);
        let (g1, s) = bool_text(g, v);
        lemma_printf(g1, "%s\n"@, (s, Ty::Ptr));
        lemma_goes_then(g, g1, printf(g1, "%s\n"@, (s, Ty::Ptr)));
    } else if name == "str"@ {
        lemma_str(g, v, ty);
    } else {
        reveal(low_len);
        lemma_single(g, v, Ty::Ptr);
        lemma_call(g, Ty::I64, Callee::C(Libc::Strlen), seq![(v, Ty::Ptr)]);
        lemma_emit(g, Ins::Load(Ty::I64, v));
    }
}

proof fn lemma_str(g: Gen, v: Val, ty: Option<Type>)
    requires
        sound(g),
        made(g, v),
    ensures
        low_str(g, v, ty) matches Ok((g1, w)) ==> goes(g, g1) && made(g1, w.0),
{
    reveal(low_str);
    lemma_single(g, v, Ty::I64);
    lemma_single(g, v, Ty::F64);
    lemma_single(g, v, Ty::Ptr);
    lemma_call(g, Ty::Ptr, Callee::Runtime(Rt::IntToStr), seq![(v, Ty::I64)]);
    lemma_call(g, Ty::Ptr, Callee::Runtime(Rt::FloatToStr), seq![(v, Ty::F64)]);
    lemma_call(g, Ty::Ptr, Callee::Runtime(Rt::StrDup), seq![(v, Ty::Ptr)]);
    lemma_bool_text(g, v);
    let (g1, s) = match ty {
        Some(Type::Int) => {
            let g1 = call_rt(g, Ty::Ptr, Rt::IntToStr, seq![(v, Ty::I64)]);
            (g1, reg(g1))
        },
        Some(Type::Float) => {
            let g1 = call_rt(g, Ty::Ptr, Rt::FloatToStr, seq![(v, Ty::F64)]);
            (g1, reg(g1))
        },
        Some(Type::Bool) => bool_text(g, v),
        _ => {
            let g1 = call_rt(g, Ty::Ptr, Rt::StrDup, seq![(v, Ty::Ptr)]);
            (g1, reg(g1))
        },
    };
    lemma_with_temp(g1, s);
    lemma_goes_then(g, g1, with_temp(g1, s));
}

proof fn lemma_push(g: Gen, arr: Val, v: Val, elem: Type)
    requires
        sound(g),
        made(g, arr),
        made(g, v),
    ensures
        goes(g, low_push(g, arr, v, elem)),
{
    reveal(low_push);
    lemma_words(g, v, elem);
    let (g1, w) = to_word(g, v, elem);
    lemma_still_made(g, g1, arr);
    lemma_pair(g1, (arr, Ty::Ptr), (w, Ty::I64));
    let args = seq![(arr, Ty::Ptr), (w, Ty::I64)];
    lemma_call(g1, Ty::Void, Callee::Runtime(Rt::ArrPush), args);
    lemma_goes_then(g, g1, call_rt(g1, Ty::Void, Rt::ArrPush, args));
}

proof fn lemma_symbol(cx: Cx, g: Gen, index: usize, args: Seq<Value>)
    requires
        sound(g),
        all_made(g, args),
    ensures
        goes(g, low_symbol(cx, g, index, args).0),
        low_symbol(cx, g, index, args).1 matches Some(v) ==> made(
            low_symbol(cx, g, index, args).0,
            v.0,
        ),
{
    reveal(low_symbol);
    let sym = cx.symbols[index as int];
    let ret = ty_of(sym.ret);
    lemma_call(g, ret, Callee::Symbol(index), args);
    let g1 = call(g, ret, Callee::Symbol(index), args);
    if sym.ret != Type::Unit {
        assert(ret != Ty::Void);
        lemma_single(g1, reg(g1), Ty::Ptr);
        let copy = seq![(reg(g1), Ty::Ptr)];
        lemma_call(g1, Ty::Ptr, Callee::Runtime(Rt::StrDup), copy);
        let g2 = call_rt(g1, Ty::Ptr, Rt::StrDup, copy);
        lemma_goes_then(g, g1, g2);
        lemma_with_temp(g2, reg(g2));
        lemma_goes_then(g, g2, with_temp(g2, reg(g2)));
        lemma_with_temp(g1, reg(g1));
        lemma_goes_then(g, g1, with_temp(g1, reg(g1)));
    }
}

proof fn lemma_fill(g: Gen, block: Val, at: nat, types: Seq<Type>, vals: Seq<Value>)
    requires
        sound(g),
        made(g, block),
        all_made(g, vals),
    ensures
        goes(g, fill(g, block, at, types, vals)),
    decreases vals.len(),
{
    if vals.len() > 0 {
        let i = vals.len() - 1;
        let less = vals.drop_last();
        assert forall|k: int| 0 <= k < less.len() implies made(g, (#[trigger] less[k]).0) by {
            assert(less[k] == vals[k]);
        }
        lemma_fill(g, block, at, types, less);
        let g1 = fill(g, block, at, types, less);
        lemma_still_made(g, g1, vals[i].0);
        lemma_count(g1, vals[i].0);
        let g2 = if types[i].heap() {
            retain(g1, vals[i].0)
        } else {
            g1
        };
        lemma_goes_then(g, g1, g2);
        lemma_still_made(g, g2, block);
        lemma_still_made(g, g2, vals[i].0);
        let gep = Ins::Gep(Ty::I64, block, Val::Int((at + i) as i64));
        lemma_emit(g2, gep);
        let g3 = emit(g2, gep);
        lemma_goes_then(g, g2, g3);
        lemma_still_made(g, g3, vals[i].0);
        let store = Ins::Store(ty_of(types[i]), vals[i].0, reg(g3));
        lemma_emit(g3, store);
        lemma_goes_then(g, g3, emit(g3, store));
    }
}

proof fn lemma_new(g: Gen, kind: Val, words: nat)
    requires
        sound(g),
        !(kind is Reg),
    ensures
        goes(g, new_block(g, kind, words)),
        made(new_block(g, kind, words), reg(new_block(g, kind, words))),
{
    let args = seq![(kind, Ty::Ptr), (Val::Int(words as i64), Ty::I64)];
    lemma_pair(g, (kind, Ty::Ptr), (Val::Int(words as i64), Ty::I64));
    lemma_call(g, Ty::Ptr, Callee::Runtime(Rt::New), args);
}

proof fn lemma_struct(cx: Cx, g: Gen, id: u32, vals: Seq<Value>)
    requires
        sound(g),
        all_made(g, vals),
    ensures
        goes(g, low_struct(cx, g, id, vals).0),
        made(low_struct(cx, g, id, vals).0, low_struct(cx, g, id, vals).1.0),
{
    reveal(low_struct);
    let types = crate::lowering::field_types(cx.structs[id as int]);
    let kind = if any_heap(types) {
        Val::DropStruct(id)
    } else {
        Val::Null
    };
    lemma_new(g, kind, vals.len());
    let g1 = new_block(g, kind, vals.len());
    let block = reg(g1);
    lemma_all_still(g, g1, vals);
    lemma_fill(g1, block, 0, types, vals);
    let g2 = fill(g1, block, 0, types, vals);
    lemma_goes_then(g, g1, g2);
    lemma_still_made(g1, g2, block);
    lemma_with_temp(g2, block);
    lemma_goes_then(g, g2, with_temp(g2, block));
}

proof fn lemma_variant(cx: Cx, g: Gen, eid: u32, vid: u32, vals: Seq<Value>)
    requires
        sound(g),
        all_made(g, vals),
    ensures
        goes(g, low_variant(cx, g, eid, vid, vals).0),
        made(low_variant(cx, g, eid, vid, vals).0, low_variant(cx, g, eid, vid, vals).1.0),
{
    reveal(low_variant);
    let def = cx.enums[eid as int];
    let types = def.variants[vid as int].fields;
    let kind = if crate::lowering::enum_owns(def) {
        Val::DropEnum(eid)
    } else {
        Val::Null
    };
    lemma_new(g, kind, vals.len() + 1);
    let g1 = new_block(g, kind, vals.len() + 1);
    let block = reg(g1);
    let tag = Ins::Store(Ty::I64, Val::Int(vid as i64), block);
    lemma_emit(g1, tag);
    let g2 = emit(g1, tag);
    lemma_goes_then(g, g1, g2);
    lemma_still_made(g1, g2, block);
    lemma_all_still(g, g2, vals);
    lemma_fill(g2, block, 1, types, vals);
    let g3 = fill(g2, block, 1, types, vals);
    lemma_goes_then(g, g2, g3);
    lemma_still_made(g2, g3, block);
    lemma_with_temp(g3, block);
    lemma_goes_then(g, g3, with_temp(g3, block));
}

proof fn lemma_field(g: Gen, base: Val, index: int, ty: Type)
    requires
        sound(g),
        made(g, base),
    ensures
        goes(g, low_field(g, base, index, ty).0),
        made(low_field(g, base, index, ty).0, low_field(g, base, index, ty).1.0),
{
    reveal(low_field);
    let gep = Ins::Gep(Ty::I64, base, Val::Int(index as i64));
    lemma_emit(g, gep);
    let g1 = emit(g, gep);
    let load = Ins::Load(ty_of(ty), reg(g1));
    lemma_emit(g1, load);
    let g2 = emit(g1, load);
    lemma_goes_then(g, g1, g2);
    let v = reg(g2);
    lemma_count(g2, v);
    let g3 = retain(g2, v);
    lemma_goes_then(g, g2, g3);
    lemma_still_made(g2, g3, v);
    lemma_with_temp(g3, v);
    lemma_goes_then(g, g3, with_temp(g3, v));
}

proof fn lemma_index(g: Gen, arr: Val, index: Val, elem: Type)
    requires
        sound(g),
        made(g, arr),
        made(g, index),
    ensures
        goes(g, low_index(g, arr, index, elem).0),
        made(low_index(g, arr, index, elem).0, low_index(g, arr, index, elem).1.0),
{
    reveal(low_index);
    lemma_pair(g, (arr, Ty::Ptr), (index, Ty::I64));
    let args = seq![(arr, Ty::Ptr), (index, Ty::I64)];
    lemma_call(g, Ty::I64, Callee::Runtime(Rt::ArrGet), args);
    let g1 = call_rt(g, Ty::I64, Rt::ArrGet, args);
    lemma_words(g1, reg(g1), elem);
    let (g2, v) = from_word(g1, reg(g1), elem);
    lemma_goes_then(g, g1, g2);
    lemma_with_temp(g2, v);
    lemma_goes_then(g, g2, with_temp(g2, v));
}

// ----- expressions ----------------------------------------------------------------------------
proof fn lemma_expr(cx: Cx, g: Gen, e: ExprV)
    requires
        sound(g),
    ensures
        low_expr(cx, g, e) matches Ok((g1, v)) ==> goes(g, g1) && made(g1, v.0),
    decreases e, 2nat,
{
    if let Ok((g1, v)) = low_expr(cx, g, e) {
        match e.kind {
            KindV::Str(s) => {
                lemma_literal(g, s);
            },
            KindV::Var(name) => {
                lemma_var(g, name);
            },
            KindV::Unary(op, a) => {
                lemma_expr(cx, g, *a);
                let (ga, va) = low_expr(cx, g, *a)->Ok_0;
                lemma_unary(ga, op, va);
                lemma_goes_then(g, ga, g1);
            },
            KindV::Binary(a, op, b) => {
                if op == BinOp::And || op == BinOp::Or {
                    lemma_short_circuit(cx, g, e);
                } else {
                    lemma_expr(cx, g, *a);
                    let (ga, l) = low_expr(cx, g, *a)->Ok_0;
                    lemma_expr(cx, ga, *b);
                    let (gb, r) = low_expr(cx, ga, *b)->Ok_0;
                    lemma_goes_then(g, ga, gb);
                    lemma_still_made(ga, gb, l.0);
                    lemma_binary(gb, op, l, r);
                    lemma_goes_then(g, gb, g1);
                }
            },
            KindV::Call(name, args) => {
                lemma_call_expr(cx, g, name, args, e.span.line);
            },
            KindV::MethodCall(recv, name, args) => {
                lemma_method(cx, g, e);
            },
            KindV::ArrayLit(es) => {
                lemma_array(cx, g, es, e.ty);
            },
            KindV::Index(a, b) => {
                let elem = a.ty->0.elem()->0;
                lemma_expr(cx, g, *a);
                let (ga, arr) = low_expr(cx, g, *a)->Ok_0;
                lemma_expr(cx, ga, *b);
                let (gb, i) = low_expr(cx, ga, *b)->Ok_0;
                lemma_goes_then(g, ga, gb);
                lemma_still_made(ga, gb, arr.0);
                lemma_index(gb, arr.0, i.0, elem);
                lemma_goes_then(g, gb, g1);
            },
            KindV::Field(a, name) => {
                let (index, ty) = field_place(cx, a.ty, name)->0;
                lemma_expr(cx, g, *a);
                let (ga, base) = low_expr(cx, g, *a)->Ok_0;
                lemma_field(ga, base.0, index, ty);
                lemma_goes_then(g, ga, g1);
            },
            KindV::EnumInit(eid, vid, args) => {
                lemma_exprs(cx, g, args, args.len());
                let (ga, vals) = low_exprs(cx, g, args, args.len())->Ok_0;
                lemma_variant(cx, ga, eid, vid, vals);
                lemma_goes_then(g, ga, g1);
            },
            _ => {},
        }
    }
}

proof fn lemma_exprs(cx: Cx, g: Gen, es: Seq<ExprV>, n: nat)
    requires
        sound(g),
    ensures
        low_exprs(cx, g, es, n) matches Ok((g1, vals)) ==> goes(g, g1) && all_made(g1, vals),
    decreases es, n,
{
    if 0 < n <= es.len() {
        lemma_exprs(cx, g, es, (n - 1) as nat);
        if let Ok((g1, vals)) = low_exprs(cx, g, es, (n - 1) as nat) {
            lemma_expr(cx, g1, es[n - 1]);
            if let Ok((g2, v)) = low_expr(cx, g1, es[n - 1]) {
                lemma_goes_then(g, g1, g2);
                lemma_all_still(g1, g2, vals);
                let more = vals.push(v);
                assert forall|k: int| 0 <= k < more.len() implies made(
                    g2,
                    (#[trigger] more[k]).0,
                ) by {
                    if k < vals.len() {
                        assert(more[k] == vals[k]);
                    }
                }
            }
        }
    }
}

proof fn lemma_short_circuit(cx: Cx, g: Gen, e: ExprV)
    requires
        sound(g),
    ensures
        low_short_circuit(cx, g, e) matches Ok((g1, v)) ==> goes(g, g1) && made(g1, v.0),
    decreases e, 1nat,
{
    if let KindV::Binary(a, op, b) = e.kind {
        let checkpoint = g.temps.len();
        lemma_expr(cx, g, *a);
        if let Ok((g1, l)) = low_expr(cx, g, *a) {
            lemma_flush(g1, checkpoint);
            let g2 = flush(g1, checkpoint);
            lemma_goes_then(g, g1, g2);
            lemma_still_made(g1, g2, l.0);
            let rhs = label(g2, Mark::ScRhs);
            let end = label(g2, Mark::ScEnd);
            let branch = if op == BinOp::And {
                Ins::CondBr(l.0, rhs, end)
            } else {
                Ins::CondBr(l.0, end, rhs)
            };
            lemma_emit(g2, branch);
            let g3 = emit(g2, branch);
            lemma_begin(g3, rhs);
            let ga = begin(g3, rhs);
            lemma_goes_then(g, g2, g3);
            lemma_goes_then(g, g3, ga);
            lemma_expr(cx, ga, *b);
            if let Ok((g4, r)) = low_expr(cx, ga, *b) {
                lemma_flush(g4, checkpoint);
                let g5 = flush(g4, checkpoint);
                lemma_emit(g5, Ins::Br(end));
                let g6 = emit(g5, Ins::Br(end));
                lemma_begin(g6, end);
                let gb = begin(g6, end);
                lemma_goes_then(g, ga, g4);
                lemma_goes_then(g, g4, g5);
                lemma_goes_then(g, g5, g6);
                lemma_goes_then(g, g6, gb);
                lemma_still_made(g4, g5, r.0);
                lemma_still_made(g5, g6, r.0);
                lemma_still_made(g6, gb, r.0);
                let phi = Ins::Phi(Ty::I1, Val::Bool(op == BinOp::Or), g2.here, r.0, g5.here);
                lemma_emit(gb, phi);
                lemma_goes_then(g, gb, emit(gb, phi));
            }
        }
    }
}

proof fn lemma_call_expr(cx: Cx, g: Gen, name: Seq<char>, args: Seq<ExprV>, line: usize)
    requires
        sound(g),
    ensures
        low_call(cx, g, name, args, line) matches Ok((g1, v)) ==> goes(g, g1) && (v matches Some(
            v,
        ) ==> made(g1, v.0)),
    decreases args, args.len() + 2,
{
    if let Ok((g1, v)) = low_call(cx, g, name, args, line) {
        if one_argument(name) {
            lemma_expr(cx, g, args[0]);
            let (ga, va) = low_expr(cx, g, args[0])->Ok_0;
            lemma_builtin(ga, name, va.0, args[0].ty);
            lemma_goes_then(g, ga, g1);
        } else if name == "push"@ {
            let elem = args[0].ty->0.elem()->0;
            lemma_expr(cx, g, args[0]);
            let (ga, arr) = low_expr(cx, g, args[0])->Ok_0;
            lemma_expr(cx, ga, args[1]);
            let (gb, va) = low_expr(cx, ga, args[1])->Ok_0;
            lemma_goes_then(g, ga, gb);
            lemma_still_made(ga, gb, arr.0);
            lemma_push(gb, arr.0, va.0, elem);
            lemma_goes_then(g, gb, g1);
        } else {
            lemma_exprs(cx, g, args, args.len());
            let (ga, vals) = low_exprs(cx, g, args, args.len())->Ok_0;
            if cx.struct_ids.contains_key(name) {
                lemma_struct(cx, ga, cx.struct_ids[name], vals);
            } else {
                lemma_symbol(cx, ga, cx.callees[name], vals);
            }
            lemma_goes_then(g, ga, g1);
        }
    }
}

proof fn lemma_method(cx: Cx, g: Gen, e: ExprV)
    requires
        sound(g),
    ensures
        low_method(cx, g, e) matches Ok((g1, v)) ==> goes(g, g1) && (v matches Some(v) ==> made(
            g1,
            v.0,
        )),
    decreases e, 1nat,
{
    if let KindV::MethodCall(recv, name, args) = e.kind {
        if let Ok((g1, v)) = low_method(cx, g, e) {
            let index = method_place(cx, recv.ty, name)->0;
            lemma_expr(cx, g, *recv);
            let (ga, base) = low_expr(cx, g, *recv)->Ok_0;
            lemma_exprs(cx, ga, args, args.len());
            let (gb, vals) = low_exprs(cx, ga, args, args.len())->Ok_0;
            lemma_goes_then(g, ga, gb);
            lemma_still_made(ga, gb, base.0);
            let all = seq![base] + vals;
            assert forall|k: int| 0 <= k < all.len() implies made(gb, (#[trigger] all[k]).0) by {
                if k > 0 {
                    assert(all[k] == vals[k - 1]);
                }
            }
            lemma_symbol(cx, gb, index, all);
            lemma_goes_then(g, gb, g1);
        }
    }
}

proof fn lemma_array(cx: Cx, g: Gen, es: Seq<ExprV>, ty: Option<Type>)
    requires
        sound(g),
    ensures
        low_array(cx, g, es, ty) matches Ok((g1, v)) ==> goes(g, g1) && made(g1, v.0),
    decreases es, es.len() + 2,
{
    if let Ok((g1, v)) = low_array(cx, g, es, ty) {
        let elem = ty->0.elem()->0;
        let args = seq![
            (Val::Int(array_kind(elem)), Ty::I64),
            (Val::Int(array_room(es.len())), Ty::I64),
        ];
        lemma_call(g, Ty::Ptr, Callee::Runtime(Rt::ArrNew), args);
        let ga = call_rt(g, Ty::Ptr, Rt::ArrNew, args);
        let arr = reg(ga);
        lemma_elems(cx, ga, arr, elem, es, es.len());
        let gb = low_elems(cx, ga, arr, elem, es, es.len())->Ok_0;
        lemma_goes_then(g, ga, gb);
        lemma_still_made(ga, gb, arr);
        lemma_with_temp(gb, arr);
        lemma_goes_then(g, gb, g1);
    }
}

proof fn lemma_elems(cx: Cx, g: Gen, arr: Val, elem: Type, es: Seq<ExprV>, n: nat)
    requires
        sound(g),
        made(g, arr),
    ensures
        low_elems(cx, g, arr, elem, es, n) matches Ok(g1) ==> goes(g, g1),
    decreases es, n,
{
    if 0 < n <= es.len() {
        lemma_elems(cx, g, arr, elem, es, (n - 1) as nat);
        if let Ok(g1) = low_elems(cx, g, arr, elem, es, (n - 1) as nat) {
            lemma_expr(cx, g1, es[n - 1]);
            if let Ok((g2, v)) = low_expr(cx, g1, es[n - 1]) {
                lemma_goes_then(g, g1, g2);
                lemma_still_made(g, g2, arr);
                lemma_push(g2, arr, v.0, elem);
                lemma_goes_then(g, g2, low_push(g2, arr, v.0, elem));
            }
        }
    }
}

// ----- simple statements ------------------------------------------------------------------------
proof fn lemma_let(cx: Cx, g: Gen, name: Seq<char>, ty: Option<Type>, value: ExprV)
    requires
        fresh_start(g),
        sound(g),
    ensures
        low_let(cx, g, name, ty, value) matches Ok(g1) ==> goes(g, g1),
{
    reveal(low_let);
    if let Ok(last) = low_let(cx, g, name, ty, value) {
        lemma_expr(cx, g, value);
        shape::lemma_expr(cx, g, value);
        let (g1, v) = low_expr(cx, g, value)->Ok_0;
        lemma_bind(g1, name, ty->0, v.0);
        let g2 = bind_var(g1, name, ty->0, v.0);
        lemma_consume(g2, v.0);
        let g3 = consume_heap(g2, v.0, ty);
        lemma_flush(g3, 0);
        lemma_goes_then(g, g1, g2);
        lemma_goes_then(g, g2, g3);
        lemma_goes_then(g, g3, last);
    }
}

proof fn lemma_assign(cx: Cx, g: Gen, name: Seq<char>, value: ExprV)
    requires
        sound(g),
    ensures
        low_assign(cx, g, name, value) matches Ok(g1) ==> goes(g, g1),
{
    reveal(low_assign);
    if let Ok(last) = low_assign(cx, g, name, value) {
        lemma_slot(g, name);
        let (slot, ty) = find_var(g.vars, name)->0;
        let place = Val::Reg(slot);
        lemma_expr(cx, g, value);
        let (g1, v) = low_expr(cx, g, value)->Ok_0;
        lemma_still_made(g, g1, place);
        let t = ty_of(ty);
        let store = Ins::Store(t, v.0, place);
        if ty.heap() {
            lemma_count(g1, v.0);
            let g2 = if value.kind is Var {
                retain(g1, v.0)
            } else {
                g1
            };
            lemma_goes_then(g, g1, g2);
            lemma_still_made(g1, g2, place);
            lemma_still_made(g1, g2, v.0);
            let load = Ins::Load(t, place);
            lemma_emit(g2, load);
            let g3 = emit(g2, load);
            lemma_goes_then(g, g2, g3);
            lemma_still_made(g2, g3, place);
            lemma_still_made(g2, g3, v.0);
            lemma_emit(g3, store);
            let g4 = emit(g3, store);
            lemma_goes_then(g, g3, g4);
            lemma_still_made(g3, g4, reg(g3));
            lemma_count(g4, reg(g3));
            let g5 = release(g4, reg(g3));
            lemma_goes_then(g, g4, g5);
            lemma_consume(g5, v.0);
            let g6 = consume(g5, v.0);
            lemma_goes_then(g, g5, g6);
            lemma_flush(g6, 0);
            lemma_goes_then(g, g6, last);
        } else {
            lemma_emit(g1, store);
            let g2 = emit(g1, store);
            lemma_goes_then(g, g1, g2);
            lemma_flush(g2, 0);
            lemma_goes_then(g, g2, last);
        }
    }
}

proof fn lemma_index_assign(cx: Cx, g: Gen, target: ExprV, index: ExprV, value: ExprV)
    requires
        sound(g),
    ensures
        low_index_assign(cx, g, target, index, value) matches Ok(g1) ==> goes(g, g1),
{
    reveal(low_index_assign);
    if let Ok(last) = low_index_assign(cx, g, target, index, value) {
        let elem = target.ty->0.elem()->0;
        lemma_expr(cx, g, target);
        let (g1, arr) = low_expr(cx, g, target)->Ok_0;
        lemma_expr(cx, g1, index);
        let (g2, i) = low_expr(cx, g1, index)->Ok_0;
        lemma_expr(cx, g2, value);
        let (g3, v) = low_expr(cx, g2, value)->Ok_0;
        lemma_goes_then(g, g1, g2);
        lemma_goes_then(g, g2, g3);
        lemma_still_made(g1, g2, arr.0);
        lemma_still_made(g2, g3, arr.0);
        lemma_still_made(g2, g3, i.0);
        lemma_words(g3, v.0, elem);
        let (g4, w) = to_word(g3, v.0, elem);
        lemma_goes_then(g, g3, g4);
        lemma_still_made(g3, g4, arr.0);
        lemma_still_made(g3, g4, i.0);
        let args = seq![(arr.0, Ty::Ptr), (i.0, Ty::I64), (w, Ty::I64)];
        lemma_call(g4, Ty::Void, Callee::Runtime(Rt::ArrSet), args);
        let g5 = call_rt(g4, Ty::Void, Rt::ArrSet, args);
        lemma_goes_then(g, g4, g5);
        lemma_flush(g5, 0);
        lemma_goes_then(g, g5, last);
    }
}

proof fn lemma_field_assign(cx: Cx, g: Gen, target: ExprV, field: Seq<char>, value: ExprV)
    requires
        sound(g),
    ensures
        low_field_assign(cx, g, target, field, value) matches Ok(g1) ==> goes(g, g1),
{
    reveal(low_field_assign);
    if let Ok(last) = low_field_assign(cx, g, target, field, value) {
        let (index, ty) = field_place(cx, target.ty, field)->0;
        lemma_expr(cx, g, target);
        let (g1, base) = low_expr(cx, g, target)->Ok_0;
        lemma_expr(cx, g1, value);
        let (g2, v) = low_expr(cx, g1, value)->Ok_0;
        lemma_goes_then(g, g1, g2);
        lemma_still_made(g1, g2, base.0);
        let gep = Ins::Gep(Ty::I64, base.0, Val::Int(index as i64));
        lemma_emit(g2, gep);
        let g3 = emit(g2, gep);
        lemma_goes_then(g, g2, g3);
        lemma_still_made(g2, g3, v.0);
        let slot = reg(g3);
        if ty.heap() {
            lemma_count(g3, v.0);
            let g4 = retain(g3, v.0);
            lemma_goes_then(g, g3, g4);
            lemma_still_made(g3, g4, slot);
            lemma_still_made(g3, g4, v.0);
            let load = Ins::Load(Ty::Ptr, slot);
            lemma_emit(g4, load);
            let g5 = emit(g4, load);
            lemma_goes_then(g, g4, g5);
            lemma_still_made(g4, g5, slot);
            lemma_still_made(g4, g5, v.0);
            let store = Ins::Store(Ty::Ptr, v.0, slot);
            lemma_emit(g5, store);
            let g6 = emit(g5, store);
            lemma_goes_then(g, g5, g6);
            lemma_still_made(g5, g6, reg(g5));
            lemma_count(g6, reg(g5));
            let g7 = release(g6, reg(g5));
            lemma_goes_then(g, g6, g7);
            lemma_flush(g7, 0);
            lemma_goes_then(g, g7, last);
        } else {
            let store = Ins::Store(ty_of(ty), v.0, slot);
            lemma_emit(g3, store);
            let g4 = emit(g3, store);
            lemma_goes_then(g, g3, g4);
            lemma_flush(g4, 0);
            lemma_goes_then(g, g4, last);
        }
    }
}

proof fn lemma_bare(cx: Cx, g: Gen, e: ExprV)
    requires
        sound(g),
    ensures
        low_bare(cx, g, e) matches Ok(g1) ==> goes(g, g1),
{
    reveal(low_bare);
    if let Ok(last) = low_bare(cx, g, e) {
        let g1 = match (e.kind, e.ty) {
            (KindV::Call(name, args), Some(Type::Unit)) => {
                lemma_call_expr(cx, g, name, args, e.span.line);
                low_call(cx, g, name, args, e.span.line)->Ok_0.0
            },
            (KindV::MethodCall(..), Some(Type::Unit)) => {
                lemma_method(cx, g, e);
                low_method(cx, g, e)->Ok_0.0
            },
            _ => {
                lemma_expr(cx, g, e);
                low_expr(cx, g, e)->Ok_0.0
            },
        };
        lemma_flush(g1, 0);
        lemma_goes_then(g, g1, last);
    }
}

proof fn lemma_return(cx: Cx, g: Gen, value: Option<ExprV>)
    requires
        sound(g),
    ensures
        low_return(cx, g, value) matches Ok(g1) ==> goes(g, g1),
{
    reveal(low_return);
    if let Ok(last) = low_return(cx, g, value) {
        match value {
            None => {
                lemma_flush(g, 0);
                let g1 = flush(g, 0);
                lemma_emit(g1, Ins::RetVoid);
                lemma_goes_then(g, g1, last);
            },
            Some(e) => {
                lemma_expr(cx, g, e);
                let (g1, v) = low_expr(cx, g, e)->Ok_0;
                lemma_consume(g1, v.0);
                let g2 = consume_heap(g1, v.0, e.ty);
                lemma_flush(g2, 0);
                let g3 = flush(g2, 0);
                lemma_goes_then(g, g1, g2);
                lemma_goes_then(g, g2, g3);
                lemma_still_made(g1, g2, v.0);
                lemma_still_made(g2, g3, v.0);
                lemma_emit(g3, Ins::Ret(v.1, v.0));
                lemma_goes_then(g, g3, last);
            },
        }
    }
}

proof fn lemma_counts(g: Gen, name: Seq<char>, up: bool)
    requires
        sound(g),
    ensures
        low_count(g, name, up) matches Ok(g1) ==> goes(g, g1),
{
    reveal(low_count);
    if let Ok(last) = low_count(g, name, up) {
        lemma_hidden(g, g.vars, bare(name), primes(name));
        let (slot, ty) = find_hidden(g.vars, bare(name), primes(name))->0;
        let load = Ins::Load(ty_of(ty), Val::Reg(slot));
        lemma_emit(g, load);
        let g1 = emit(g, load);
        lemma_count(g1, reg(g1));
        lemma_goes_then(g, g1, last);
    }
}

// ----- statements --------------------------------------------------------------------------------
proof fn lemma_stmt(cx: Cx, g: Gen, s: StmtV)
    requires
        fresh_start(g),
        sound(g),
    ensures
        low_stmt(cx, g, s) matches Ok(g1) ==> goes(g, g1),
    decreases s, 2nat,
{
    match s {
        StmtV::Let { name, ty, value, line } => {
            lemma_let(cx, g, name, ty, value);
        },
        StmtV::Assign { name, value, line } => {
            lemma_assign(cx, g, name, value);
        },
        StmtV::IndexAssign { target, index, value, line } => {
            lemma_index_assign(cx, g, target, index, value);
        },
        StmtV::FieldAssign { target, field, value, line } => {
            lemma_field_assign(cx, g, target, field, value);
        },
        StmtV::Expr(e) => {
            lemma_bare(cx, g, e);
        },
        StmtV::Return { value, line } => {
            lemma_return(cx, g, value);
        },
        StmtV::If { .. } => {
            lemma_if(cx, g, s);
        },
        StmtV::While { .. } => {
            lemma_while(cx, g, s);
        },
        StmtV::For { .. } => {
            lemma_for(cx, g, s);
        },
        StmtV::ForEach { .. } => {
            lemma_foreach(cx, g, s);
        },
        StmtV::Match { .. } => {
            lemma_match(cx, g, s);
        },
        StmtV::Break { line } => {
            reveal(low_jump);
            if g.loops.len() > 0 {
                lemma_emit(g, Ins::Br(g.loops.last().1));
            }
        },
        StmtV::Continue { line } => {
            reveal(low_jump);
            if g.loops.len() > 0 {
                lemma_emit(g, Ins::Br(g.loops.last().0));
            }
        },
        StmtV::Retain(name) => {
            lemma_counts(g, name, true);
        },
        StmtV::Release(name) => {
            lemma_counts(g, name, false);
        },
    }
}

proof fn lemma_block(cx: Cx, g: Gen, b: Seq<StmtV>)
    requires
        fresh_start(g),
        sound(g),
    ensures
        low_block(cx, g, b) matches Ok(g1) ==> goes(g, g1),
    decreases b, b.len() + 1,
{
    lemma_scopes(g);
    let g0 = push_scope(g);
    lemma_stmts(cx, g0, b, 0);
    shape::lemma_stmts(cx, g0, b, 0);
    if let Ok(g1) = low_stmts(cx, g0, b, 0) {
        lemma_scopes(g1);
        lemma_goes_then(g, g0, g1);
        lemma_goes_then(g, g1, pop_scope(g1));
    }
}

proof fn lemma_stmts(cx: Cx, g: Gen, b: Seq<StmtV>, i: int)
    requires
        g.open ==> fresh_start(g),
        sound(g),
        0 <= i,
    ensures
        low_stmts(cx, g, b, i) matches Ok(g1) ==> goes(g, g1),
    decreases b, b.len() - i,
{
    if i < b.len() && g.open {
        lemma_stmt(cx, g, b[i]);
        shape::lemma_stmt(cx, g, b[i]);
        if let Ok(g1) = low_stmt(cx, g, b[i]) {
            lemma_stmts(cx, g1, b, i + 1);
            if let Ok(g2) = low_stmts(cx, g1, b, i + 1) {
                lemma_goes_then(g, g1, g2);
            }
        }
    }
}

proof fn lemma_cond(cx: Cx, g: Gen, e: ExprV)
    requires
        sound(g),
    ensures
        low_cond(cx, g, e) matches Ok((g1, c)) ==> goes(g, g1) && made(g1, c),
{
    reveal(low_cond);
    lemma_expr(cx, g, e);
    if let Ok((g1, v)) = low_expr(cx, g, e) {
        lemma_flush(g1, 0);
        lemma_goes_then(g, g1, flush(g1, 0));
        lemma_still_made(g1, flush(g1, 0), v.0);
    }
}

proof fn lemma_branch_on(g: Gen, l: Label)
    requires
        sound(g),
    ensures
        goes(g, branch_if_open(g, l)),
{
    if g.open {
        lemma_emit(g, Ins::Br(l));
    }
}

proof fn lemma_if(cx: Cx, g: Gen, s: StmtV)
    requires
        fresh_start(g),
        sound(g),
        s is If,
    ensures
        low_if(cx, g, s) matches Ok(g1) ==> goes(g, g1),
    decreases s, 0nat,
{
    if let StmtV::If { cond, then_block, else_block } = s {
        if let Ok(last) = low_if(cx, g, s) {
            lemma_cond(cx, g, cond);
            shape::lemma_cond(cx, g, cond);
            let (g1, c) = low_cond(cx, g, cond)->Ok_0;
            let yes = label(g1, Mark::Then);
            let end = label(g1, Mark::EndIf);
            let no = if else_block is Some {
                label(g1, Mark::Else)
            } else {
                end
            };
            let branch = Ins::CondBr(c, yes, no);
            lemma_emit(g1, branch);
            shape::lemma_emit(g1, branch);
            let ga = emit(g1, branch);
            lemma_begin(ga, yes);
            shape::lemma_begin(ga, yes);
            let g2 = begin(ga, yes);
            lemma_block(cx, g2, then_block);
            shape::lemma_block(cx, g2, then_block);
            let g3 = low_block(cx, g2, then_block)->Ok_0;
            lemma_branch_on(g3, end);
            shape::lemma_branch_if_open(g3, end);
            let g4 = branch_if_open(g3, end);
            lemma_goes_then(g, g1, ga);
            lemma_goes_then(g, ga, g2);
            lemma_goes_then(g, g2, g3);
            lemma_goes_then(g, g3, g4);
            match else_block {
                None => {
                    lemma_begin(g4, end);
                    lemma_goes_then(g, g4, last);
                },
                Some(b) => {
                    lemma_begin(g4, no);
                    shape::lemma_begin(g4, no);
                    let g5 = begin(g4, no);
                    lemma_block(cx, g5, b);
                    let g6 = low_block(cx, g5, b)->Ok_0;
                    lemma_branch_on(g6, end);
                    let g7 = branch_if_open(g6, end);
                    lemma_begin(g7, end);
                    lemma_goes_then(g, g4, g5);
                    lemma_goes_then(g, g5, g6);
                    lemma_goes_then(g, g6, g7);
                    lemma_goes_then(g, g7, last);
                },
            }
        }
    }
}

proof fn lemma_body(cx: Cx, g: Gen, b: Seq<StmtV>, next: Label, end: Label)
    requires
        fresh_start(g),
        sound(g),
    ensures
        low_body(cx, g, b, next, end) matches Ok(g1) ==> goes(g, g1),
    decreases b, b.len() + 2,
{
    let g0 = Gen { loops: g.loops.push((next, end)), ..g };
    lemma_block(cx, g0, b);
    if let Ok(g1) = low_block(cx, g0, b) {
        let g2 = Gen { loops: g1.loops.drop_last(), ..g1 };
        assert(goes(g, g2));
        lemma_branch_on(g2, next);
        lemma_goes_then(g, g2, branch_if_open(g2, next));
    }
}

proof fn lemma_while(cx: Cx, g: Gen, s: StmtV)
    requires
        fresh_start(g),
        sound(g),
        s is While,
    ensures
        low_while(cx, g, s) matches Ok(g1) ==> goes(g, g1),
    decreases s, 0nat,
{
    if let StmtV::While { cond, body } = s {
        if let Ok(last) = low_while(cx, g, s) {
            let test = label(g, Mark::LoopCond);
            let inside = label(g, Mark::LoopBody);
            let end = label(g, Mark::LoopEnd);
            lemma_emit(g, Ins::Br(test));
            shape::lemma_emit(g, Ins::Br(test));
            let ga = emit(g, Ins::Br(test));
            lemma_begin(ga, test);
            shape::lemma_begin(ga, test);
            let g1 = begin(ga, test);
            lemma_cond(cx, g1, cond);
            shape::lemma_cond(cx, g1, cond);
            let (g2, c) = low_cond(cx, g1, cond)->Ok_0;
            let branch = Ins::CondBr(c, inside, end);
            lemma_emit(g2, branch);
            shape::lemma_emit(g2, branch);
            let g3 = emit(g2, branch);
            lemma_begin(g3, inside);
            shape::lemma_begin(g3, inside);
            let g4 = begin(g3, inside);
            lemma_body(cx, g4, body, test, end);
            let g5 = low_body(cx, g4, body, test, end)->Ok_0;
            lemma_begin(g5, end);
            lemma_goes_then(g, ga, g1);
            lemma_goes_then(g, g1, g2);
            lemma_goes_then(g, g2, g3);
            lemma_goes_then(g, g3, g4);
            lemma_goes_then(g, g4, g5);
            lemma_goes_then(g, g5, last);
        }
    }
}

proof fn lemma_advance(g: Gen, slot: usize, test: Label)
    requires
        sound(g),
        made(g, Val::Reg(slot)),
    ensures
        goes(g, low_advance(g, slot, test)),
{
    reveal(low_advance);
    let place = Val::Reg(slot);
    let load = Ins::Load(Ty::I64, place);
    lemma_emit(g, load);
    let g1 = emit(g, load);
    let sum = Ins::Bin(Op::Add, Ty::I64, reg(g1), Val::Int(1));
    lemma_emit(g1, sum);
    let g2 = emit(g1, sum);
    lemma_goes_then(g, g1, g2);
    lemma_still_made(g, g2, place);
    let store = Ins::Store(Ty::I64, reg(g2), place);
    lemma_emit(g2, store);
    let g3 = emit(g2, store);
    lemma_goes_then(g, g2, g3);
    lemma_emit(g3, Ins::Br(test));
    lemma_goes_then(g, g3, emit(g3, Ins::Br(test)));
}

/// The slot of a variable that was just bound.
proof fn lemma_bound_slot(g: Gen, name: Seq<char>, ty: Type, v: Val)
    requires
        sound(g),
        g.vars.len() > 0,
        made(g, v),
    ensures
        made(bind_var(g, name, ty, v), Val::Reg(g.code.len() as usize)),
{
    lemma_bind(g, name, ty, v);
    let slot_ins = Ins::Alloca(ty_of(ty));
    lemma_emit(g, slot_ins);
    let g1 = emit(g, slot_ins);
    let slot = Val::Reg((g1.code.len() - 1) as usize);
    lemma_still_made(g, g1, v);
    lemma_emit(g1, Ins::Store(ty_of(ty), v, slot));
    lemma_still_made(g1, bind_var(g, name, ty, v), slot);
}

proof fn lemma_for(cx: Cx, g: Gen, s: StmtV)
    requires
        fresh_start(g),
        sound(g),
        s is For,
    ensures
        low_for(cx, g, s) matches Ok(g1) ==> goes(g, g1),
    decreases s, 0nat,
{
    if let StmtV::For { var, start, end, body, line } = s {
        if let Ok(last) = low_for(cx, g, s) {
            lemma_expr(cx, g, start);
            shape::lemma_expr(cx, g, start);
            let (g1, from) = low_expr(cx, g, start)->Ok_0;
            lemma_expr(cx, g1, end);
            shape::lemma_expr(cx, g1, end);
            let (g2, to) = low_expr(cx, g1, end)->Ok_0;
            lemma_goes_then(g, g1, g2);
            lemma_still_made(g1, g2, from.0);
            lemma_flush(g2, 0);
            shape::lemma_flush_all(g2);
            let gf = flush(g2, 0);
            lemma_goes_then(g, g2, gf);
            lemma_scopes(gf);
            let before = push_scope(gf);
            lemma_goes_then(g, gf, before);
            lemma_still_made(g2, gf, from.0);
            lemma_still_made(g2, gf, to.0);
            lemma_still_made(gf, before, from.0);
            let slot = before.code.len() as usize;
            lemma_bind(before, var, Type::Int, from.0);
            lemma_bound_slot(before, var, Type::Int, from.0);
            shape::lemma_bind_var(before, var, Type::Int, from.0);
            let g3 = bind_var(before, var, Type::Int, from.0);
            lemma_goes_then(g, before, g3);
            lemma_still_made(gf, before, to.0);
            lemma_still_made(before, g3, to.0);
            let place = Val::Reg(slot);
            let test = label(g3, Mark::ForCond);
            let inside = label(g3, Mark::ForBody);
            let next = label(g3, Mark::ForInc);
            let out = label(g3, Mark::ForEnd);
            lemma_emit(g3, Ins::Br(test));
            shape::lemma_emit(g3, Ins::Br(test));
            let ga = emit(g3, Ins::Br(test));
            lemma_begin(ga, test);
            shape::lemma_begin(ga, test);
            let g4 = begin(ga, test);
            lemma_goes_then(g3, ga, g4);
            lemma_still_made(g3, g4, place);
            lemma_still_made(g3, g4, to.0);
            let load = Ins::Load(Ty::I64, place);
            lemma_emit(g4, load);
            shape::lemma_emit(g4, load);
            let g5 = emit(g4, load);
            lemma_still_made(g4, g5, to.0);
            let less = Ins::Cmp(Pred::Slt, Ty::I64, reg(g5), to.0);
            lemma_emit(g5, less);
            shape::lemma_emit(g5, less);
            let g6 = emit(g5, less);
            let branch = Ins::CondBr(reg(g6), inside, out);
            lemma_emit(g6, branch);
            shape::lemma_emit(g6, branch);
            let gc = emit(g6, branch);
            lemma_begin(gc, inside);
            shape::lemma_begin(gc, inside);
            let g7 = begin(gc, inside);
            lemma_body(cx, g7, body, next, out);
            shape::lemma_body(cx, g7, body, next, out);
            let g8 = low_body(cx, g7, body, next, out)->Ok_0;
            lemma_begin(g8, next);
            let gn = begin(g8, next);
            lemma_goes_then(g3, g4, g5);
            lemma_goes_then(g3, g5, g6);
            lemma_goes_then(g3, g6, gc);
            lemma_goes_then(g3, gc, g7);
            lemma_goes_then(g3, g7, g8);
            lemma_goes_then(g3, g8, gn);
            lemma_still_made(g3, gn, place);
            lemma_advance(gn, slot, test);
            shape::lemma_begin(g8, next);
            shape::lemma_advance(gn, slot, test);
            let g9 = low_advance(gn, slot, test);
            lemma_goes_then(g3, gn, g9);
            lemma_scopes(g9);
            let gp = pop_scope(g9);
            lemma_goes_then(g3, g9, gp);
            lemma_begin(gp, out);
            lemma_goes_then(g3, gp, last);
            lemma_goes_then(g, g3, last);
        }
    }
}

proof fn lemma_keep_alive(g: Gen, checkpoint: nat, v: Val)
    requires
        sound(g),
    ensures
        goes(g, keep_alive(g, checkpoint, v).0),
{
    reveal(keep_alive);
    let fresh = g.temps.len() > 0 && g.temps.last() == v;
    lemma_consume(g, v);
    let g1 = if fresh {
        consume(g, v)
    } else {
        g
    };
    lemma_flush(g1, checkpoint);
    lemma_goes_then(g, g1, flush(g1, checkpoint));
}

/// The slots of a loop over an array.
proof fn lemma_foreach_slots(g: Gen, var: Seq<char>, elem: Type)
    requires
        sound(g),
    ensures
        goes(g, foreach_slots(g, var, elem)),
        made(foreach_slots(g, var, elem), Val::Reg(g.code.len() as usize)),
        made(foreach_slots(g, var, elem), Val::Reg((g.code.len() + 2) as usize)),
{
    reveal(foreach_slots);
    let i1 = Ins::Alloca(Ty::I64);
    lemma_emit(g, i1);
    let g1 = emit(g, i1);
    let i2 = Ins::Store(Ty::I64, Val::Int(0), reg(g1));
    lemma_emit(g1, i2);
    let g2 = emit(g1, i2);
    let i3 = Ins::Alloca(ty_of(elem));
    lemma_emit(g2, i3);
    let g3 = emit(g2, i3);
    lemma_goes_then(g, g1, g2);
    lemma_goes_then(g, g2, g3);
    lemma_still_made(g1, g2, reg(g1));
    lemma_still_made(g2, g3, reg(g1));
    lemma_scopes(g3);
    let g4 = push_scope(g3);
    lemma_goes_then(g, g3, g4);
    let slot = (g3.code.len() - 1) as usize;
    lemma_still_made(g3, g4, Val::Reg(slot));
    lemma_with_var(g4, var, slot, elem);
    lemma_goes_then(g, g4, with_var(g4, var, slot, elem));
}

proof fn lemma_foreach_test(g: Gen, arr: Val, at: usize, inside: Label, out: Label)
    requires
        sound(g),
        made(g, arr),
        made(g, Val::Reg(at)),
    ensures
        goes(g, foreach_test(g, arr, at, inside, out)),
{
    reveal(foreach_test);
    let load = Ins::Load(Ty::I64, Val::Reg(at));
    lemma_emit(g, load);
    let g1 = emit(g, load);
    lemma_still_made(g, g1, arr);
    let size = Ins::Load(Ty::I64, arr);
    lemma_emit(g1, size);
    let g2 = emit(g1, size);
    lemma_still_made(g1, g2, reg(g1));
    let less = Ins::Cmp(Pred::Slt, Ty::I64, reg(g1), reg(g2));
    lemma_emit(g2, less);
    let g3 = emit(g2, less);
    let branch = Ins::CondBr(reg(g3), inside, out);
    lemma_emit(g3, branch);
    lemma_goes_then(g, g1, g2);
    lemma_goes_then(g, g2, g3);
    lemma_goes_then(g, g3, emit(g3, branch));
}

proof fn lemma_foreach_take(g: Gen, arr: Val, at: usize, slot: usize, elem: Type)
    requires
        sound(g),
        made(g, arr),
        made(g, Val::Reg(at)),
        made(g, Val::Reg(slot)),
    ensures
        goes(g, foreach_take(g, arr, at, slot, elem)),
{
    reveal(foreach_take);
    let load = Ins::Load(Ty::I64, Val::Reg(at));
    lemma_emit(g, load);
    let g1 = emit(g, load);
    lemma_still_made(g, g1, arr);
    lemma_pair(g1, (arr, Ty::Ptr), (reg(g1), Ty::I64));
    let args = seq![(arr, Ty::Ptr), (reg(g1), Ty::I64)];
    lemma_call(g1, Ty::I64, Callee::Runtime(Rt::ArrGet), args);
    let g2 = call_rt(g1, Ty::I64, Rt::ArrGet, args);
    lemma_words(g2, reg(g2), elem);
    let (g3, v) = from_word(g2, reg(g2), elem);
    lemma_goes_then(g, g1, g2);
    lemma_goes_then(g, g2, g3);
    lemma_still_made(g, g3, Val::Reg(slot));
    let store = Ins::Store(ty_of(elem), v, Val::Reg(slot));
    lemma_emit(g3, store);
    lemma_goes_then(g, g3, emit(g3, store));
}

proof fn lemma_hold(g: Gen, var: Seq<char>, iterable: ExprV, arr: Val)
    requires
        sound(g),
        g.vars.len() > 0,
        made(g, arr),
    ensures
        goes(g, low_hold(g, var, iterable, arr)),
{
    reveal(low_hold);
    lemma_bind(g, holder(var), iterable.ty->0, arr);
}

proof fn lemma_foreach(cx: Cx, g: Gen, s: StmtV)
    requires
        fresh_start(g),
        sound(g),
        s is ForEach,
    ensures
        low_foreach(cx, g, s) matches Ok(g1) ==> goes(g, g1),
    decreases s, 0nat,
{
    if let StmtV::ForEach { var, iterable, body, line } = s {
        if let Ok(last) = low_foreach(cx, g, s) {
            let elem = iterable.ty->0.elem()->0;
            lemma_expr(cx, g, iterable);
            shape::lemma_expr(cx, g, iterable);
            let (g1, arr) = low_expr(cx, g, iterable)->Ok_0;
            lemma_keep_alive(g1, g.temps.len(), arr.0);
            shape::lemma_keep_alive(g, g1, arr.0);
            let (g2, fresh) = keep_alive(g1, g.temps.len(), arr.0);
            lemma_goes_then(g, g1, g2);
            lemma_still_made(g1, g2, arr.0);
            let at = g2.code.len() as usize;
            let slot = (g2.code.len() + 2) as usize;
            let gs = foreach_slots(g2, var, elem);
            let g3 = low_hold(gs, var, iterable, arr.0);
            let test = label(g3, Mark::ForeachCond);
            let inside = label(g3, Mark::ForeachBody);
            let next = label(g3, Mark::ForeachInc);
            let out = label(g3, Mark::ForeachEnd);
            lemma_foreach_slots(g2, var, elem);
            shape::lemma_foreach_pieces(g2, var, elem, arr.0, at, slot, inside, out);
            lemma_goes_then(g, g2, gs);
            lemma_still_made(g2, gs, arr.0);
            lemma_hold(gs, var, iterable, arr.0);
            shape::lemma_hold(gs, var, iterable, arr.0);
            lemma_goes_then(g, gs, g3);
            lemma_still_made(gs, g3, arr.0);
            lemma_still_made(gs, g3, Val::Reg(at));
            lemma_still_made(gs, g3, Val::Reg(slot));
            lemma_emit(g3, Ins::Br(test));
            shape::lemma_emit(g3, Ins::Br(test));
            let ga = emit(g3, Ins::Br(test));
            lemma_begin(ga, test);
            shape::lemma_begin(ga, test);
            let g4 = begin(ga, test);
            lemma_goes_then(g3, ga, g4);
            lemma_still_made(g3, g4, arr.0);
            lemma_still_made(g3, g4, Val::Reg(at));
            lemma_foreach_test(g4, arr.0, at, inside, out);
            shape::lemma_foreach_pieces(g4, var, elem, arr.0, at, slot, inside, out);
            let gt = foreach_test(g4, arr.0, at, inside, out);
            lemma_begin(gt, inside);
            shape::lemma_begin(gt, inside);
            let g5 = begin(gt, inside);
            lemma_goes_then(g3, g4, gt);
            lemma_goes_then(g3, gt, g5);
            lemma_still_made(g3, g5, arr.0);
            lemma_still_made(g3, g5, Val::Reg(at));
            lemma_still_made(g3, g5, Val::Reg(slot));
            lemma_foreach_take(g5, arr.0, at, slot, elem);
            shape::lemma_foreach_pieces(g5, var, elem, arr.0, at, slot, inside, out);
            let g6 = foreach_take(g5, arr.0, at, slot, elem);
            lemma_goes_then(g3, g5, g6);
            lemma_body(cx, g6, body, next, out);
            shape::lemma_body(cx, g6, body, next, out);
            let g7 = low_body(cx, g6, body, next, out)->Ok_0;
            lemma_goes_then(g3, g6, g7);
            lemma_begin(g7, next);
            shape::lemma_begin(g7, next);
            let gn = begin(g7, next);
            lemma_goes_then(g3, g7, gn);
            lemma_still_made(g3, gn, Val::Reg(at));
            lemma_advance(gn, at, test);
            shape::lemma_advance(gn, at, test);
            let g8 = low_advance(gn, at, test);
            lemma_goes_then(g3, gn, g8);
            lemma_scopes(g8);
            let gp = pop_scope(g8);
            lemma_goes_then(g3, g8, gp);
            lemma_begin(gp, out);
            let g9 = begin(gp, out);
            lemma_goes_then(g3, gp, g9);
            lemma_goes_then(g, g3, g9);
            lemma_still_made(g3, g9, arr.0);
            lemma_count(g9, arr.0);
            lemma_goes_then(g, g9, release(g9, arr.0));
        }
    }
}

// ----- matches -----------------------------------------------------------------------------------
proof fn lemma_payload(g: Gen, base: Val, names: Seq<Seq<char>>, types: Seq<Type>, n: nat)
    requires
        ready(g),
        sound(g),
        g.vars.len() > 0,
        made(g, base),
    ensures
        goes(g, bind_payload(g, base, names, types, n)),
    decreases n,
{
    if n > 0 {
        let i = n - 1;
        lemma_payload(g, base, names, types, i as nat);
        shape::lemma_payload(g, base, names, types, i as nat);
        let g1 = bind_payload(g, base, names, types, i as nat);
        lemma_still_made(g, g1, base);
        let gep = Ins::Gep(Ty::I64, base, Val::Int(n as i64));
        lemma_emit(g1, gep);
        let g2 = emit(g1, gep);
        let load = Ins::Load(ty_of(types[i]), reg(g2));
        lemma_emit(g2, load);
        let g3 = emit(g2, load);
        let v = reg(g3);
        lemma_goes_then(g, g1, g2);
        lemma_goes_then(g, g2, g3);
        lemma_count(g3, v);
        shape::lemma_emit(g1, gep);
        shape::lemma_emit(g2, load);
        shape::lemma_retain(g3, v);
        let g4 = if types[i].heap() {
            retain(g3, v)
        } else {
            g3
        };
        lemma_goes_then(g, g3, g4);
        lemma_still_made(g3, g4, v);
        lemma_bind(g4, names[i], types[i], v);
        lemma_goes_then(g, g4, bind_var(g4, names[i], types[i], v));
    }
}

proof fn lemma_arm_test(g: Gen, tag: Val, vid: Option<int>)
    requires
        sound(g),
        made(g, tag),
    ensures
        goes(g, arm_test(g, tag, vid).0),
{
    reveal(arm_test);
    match vid {
        None => {
            let here = label(g, Mark::Arm);
            lemma_emit(g, Ins::Br(here));
            let g1 = emit(g, Ins::Br(here));
            lemma_begin(g1, here);
            lemma_goes_then(g, g1, begin(g1, here));
        },
        Some(v) => {
            let test = Ins::Cmp(Pred::Eq, Ty::I64, tag, Val::Int(v as i64));
            lemma_emit(g, test);
            let g1 = emit(g, test);
            let here = label(g1, Mark::Arm);
            let branch = Ins::CondBr(reg(g1), here, label(g1, Mark::NextArm));
            lemma_emit(g1, branch);
            let g2 = emit(g1, branch);
            lemma_begin(g2, here);
            lemma_goes_then(g, g1, g2);
            lemma_goes_then(g, g2, begin(g2, here));
        },
    }
}

proof fn lemma_arm(
    cx: Cx,
    g: Gen,
    def: EnumV,
    arm: ArmV,
    base: Val,
    tag: Val,
    fresh: bool,
    end: Label,
)
    requires
        fresh_start(g),
        sound(g),
        made(g, base),
        made(g, tag),
    ensures
        low_arm(cx, g, def, arm, base, tag, fresh, end) matches Ok((g1, falls)) ==> goes(g, g1),
    decreases arm, 0nat,
{
    if let Ok((last, falls)) = low_arm(cx, g, def, arm, base, tag, fresh, end) {
        let (vid, names, types) = pattern_place(def, arm.pattern)->Ok_0;
        lemma_arm_test(g, tag, vid);
        shape::lemma_arm_test(g, tag, vid);
        let (g1, next) = arm_test(g, tag, vid);
        lemma_scopes(g1);
        let gs = push_scope(g1);
        lemma_goes_then(g, g1, gs);
        lemma_still_made(g, gs, base);
        lemma_payload(gs, base, names, types, names.len());
        shape::lemma_payload(gs, base, names, types, names.len());
        let g2 = bind_payload(gs, base, names, types, names.len());
        lemma_goes_then(g, gs, g2);
        lemma_still_made(g, g2, base);
        lemma_count(g2, base);
        shape::lemma_retain(g2, base);
        let g3 = if fresh {
            release(g2, base)
        } else {
            g2
        };
        lemma_goes_then(g, g2, g3);
        lemma_block(cx, g3, arm.body);
        shape::lemma_block(cx, g3, arm.body);
        let g4 = low_block(cx, g3, arm.body)->Ok_0;
        lemma_goes_then(g, g3, g4);
        lemma_scopes(g4);
        let g5 = pop_scope(g4);
        lemma_goes_then(g, g4, g5);
        lemma_branch_on(g5, end);
        let g6 = branch_if_open(g5, end);
        lemma_goes_then(g, g5, g6);
        lemma_begin(g6, next);
        lemma_goes_then(g, g6, last);
    }
}

proof fn lemma_arms(
    cx: Cx,
    g: Gen,
    def: EnumV,
    arms: Seq<ArmV>,
    i: int,
    base: Val,
    tag: Val,
    fresh: bool,
    end: Label,
    falls: bool,
)
    requires
        fresh_start(g),
        sound(g),
        made(g, base),
        made(g, tag),
        0 <= i,
    ensures
        low_arms(cx, g, def, arms, i, base, tag, fresh, end, falls) matches Ok((g1, f)) ==> goes(
            g,
            g1,
        ),
    decreases arms, arms.len() - i,
{
    if i < arms.len() {
        lemma_arm(cx, g, def, arms[i], base, tag, fresh, end);
        shape::lemma_arm(cx, g, def, arms[i], base, tag, fresh, end);
        if let Ok((g1, open)) = low_arm(cx, g, def, arms[i], base, tag, fresh, end) {
            lemma_still_made(g, g1, base);
            lemma_still_made(g, g1, tag);
            lemma_arms(cx, g1, def, arms, i + 1, base, tag, fresh, end, falls || open);
            if let Ok((g2, f)) = low_arms(
                cx,
                g1,
                def,
                arms,
                i + 1,
                base,
                tag,
                fresh,
                end,
                falls || open,
            ) {
                lemma_goes_then(g, g1, g2);
            }
        }
    }
}

proof fn lemma_match(cx: Cx, g: Gen, s: StmtV)
    requires
        fresh_start(g),
        sound(g),
        s is Match,
    ensures
        low_match(cx, g, s) matches Ok(g1) ==> goes(g, g1),
    decreases s, 0nat,
{
    if let StmtV::Match { scrutinee, arms, line } = s {
        if let Ok(last) = low_match(cx, g, s) {
            let id = scrutinee.ty->0->Enum_0;
            let def = cx.enums[id as int];
            lemma_expr(cx, g, scrutinee);
            shape::lemma_expr(cx, g, scrutinee);
            let (g1, base) = low_expr(cx, g, scrutinee)->Ok_0;
            lemma_keep_alive(g1, g.temps.len(), base.0);
            shape::lemma_keep_alive(g, g1, base.0);
            let (g2, fresh) = keep_alive(g1, g.temps.len(), base.0);
            lemma_goes_then(g, g1, g2);
            lemma_still_made(g1, g2, base.0);
            let end = label(g2, Mark::MatchEnd);
            let load = Ins::Load(Ty::I64, base.0);
            lemma_emit(g2, load);
            shape::lemma_emit(g2, load);
            let ga = emit(g2, load);
            lemma_goes_then(g, g2, ga);
            lemma_still_made(g2, ga, base.0);
            let tag = reg(ga);
            lemma_arms(cx, ga, def, arms, 0, base.0, tag, fresh, end, false);
            let (g4, falls) = low_arms(
                cx,
                ga,
                def,
                arms,
                0,
                base.0,
                tag,
                fresh,
                end,
                false,
            )->Ok_0;
            lemma_goes_then(g, ga, g4);
            lemma_emit(g4, Ins::Unreachable);
            let g5 = emit(g4, Ins::Unreachable);
            lemma_goes_then(g, g4, g5);
            lemma_begin(g5, end);
            lemma_goes_then(g, g5, begin(g5, end));
        }
    }
}

// ----- functions ---------------------------------------------------------------------------------
proof fn lemma_entry(lits: Seq<Seq<char>>, floats: Seq<Seq<char>>)
    ensures
        sound(at_entry(lits, floats)),
{
    let g = at_entry(lits, floats);
    assert(uses_made(g.code, 0));
}

proof fn lemma_params(g: Gen, params: Seq<ParamV>, n: nat)
    requires
        fresh_start(g),
        sound(g),
    ensures
        goes(g, bind_params(g, params, n)),
    decreases n,
{
    if n > 0 {
        let i = (n - 1) as nat;
        lemma_params(g, params, i);
        shape::lemma_params(g, params, i);
        let g1 = bind_params(g, params, i);
        let p = params[n - 1];
        lemma_bind(g1, p.name, p.ty, Val::Param(i as usize));
        lemma_goes_then(g, g1, bind_var(g1, p.name, p.ty, Val::Param(i as usize)));
    }
}

/// In a lowered function every value that an instruction uses is the result of
/// an instruction before it, and the arguments of a call stand directly before
/// the call.
pub proof fn law_values_come_first(
    cx: Cx,
    lits: Seq<Seq<char>>,
    floats: Seq<Seq<char>>,
    f: FunctionV,
)
    ensures
        low_function(cx, lits, floats, f) matches Ok(g) ==> g.code.len() <= usize::MAX ==> in_order(
            g.code,
        ),
{
    if let Ok(last) = low_function(cx, lits, floats, f) {
        let params = all_params(f);
        let g = at_entry(lits, floats);
        lemma_entry(lits, floats);
        shape::lemma_entry(lits, floats);
        lemma_params(g, params, params.len());
        shape::lemma_params(g, params, params.len());
        let g1 = bind_params(g, params, params.len());
        lemma_block(cx, g1, f.body);
        let g2 = low_block(cx, g1, f.body)->Ok_0;
        lemma_emit(g2, Ins::RetVoid);
    }
}

proof fn lemma_drop_words(g: Gen, at: nat, types: Seq<Type>, n: nat)
    requires
        sound(g),
    ensures
        goes(g, drop_words(g, at, types, n)),
    decreases n,
{
    if n > 0 {
        lemma_drop_words(g, at, types, (n - 1) as nat);
        let before = drop_words(g, at, types, (n - 1) as nat);
        if types[n - 1].heap() {
            let gep = Ins::Gep(Ty::I64, Val::Param(0), Val::Int((at + n - 1) as i64));
            lemma_emit(before, gep);
            let g1 = emit(before, gep);
            let load = Ins::Load(Ty::Ptr, reg(g1));
            lemma_emit(g1, load);
            let g2 = emit(g1, load);
            lemma_count(g2, reg(g2));
            lemma_goes_then(g, before, g1);
            lemma_goes_then(g, g1, g2);
            lemma_goes_then(g, g2, release(g2, reg(g2)));
        }
    }
}

proof fn lemma_drop_variants(g: Gen, def: EnumV, tag: Val, n: nat)
    requires
        sound(g),
        made(g, tag),
    ensures
        goes(g, drop_variants(g, def, tag, n)),
    decreases n,
{
    if n > 0 {
        lemma_drop_variants(g, def, tag, (n - 1) as nat);
        let before = drop_variants(g, def, tag, (n - 1) as nat);
        let types = def.variants[n - 1].fields;
        if any_heap(types) {
            lemma_still_made(g, before, tag);
            let test = Ins::Cmp(Pred::Eq, Ty::I64, tag, Val::Int((n - 1) as i64));
            lemma_emit(before, test);
            let g1 = emit(before, test);
            let here = label(g1, Mark::Variant);
            let next = label(g1, Mark::NextVariant);
            let branch = Ins::CondBr(reg(g1), here, next);
            lemma_emit(g1, branch);
            let ga = emit(g1, branch);
            lemma_begin(ga, here);
            let g2 = begin(ga, here);
            lemma_drop_words(g2, 1, types, types.len());
            let g3 = drop_words(g2, 1, types, types.len());
            lemma_emit(g3, Ins::RetVoid);
            let g4 = emit(g3, Ins::RetVoid);
            lemma_begin(g4, next);
            lemma_goes_then(g, before, g1);
            lemma_goes_then(g, g1, ga);
            lemma_goes_then(g, ga, g2);
            lemma_goes_then(g, g2, g3);
            lemma_goes_then(g, g3, g4);
            lemma_goes_then(g, g4, begin(g4, next));
        }
    }
}

/// The same holds of destructors.
pub proof fn law_destructor_values_come_first(s: StructV, e: EnumV)
    ensures
        drop_struct(s).len() <= usize::MAX ==> in_order(drop_struct(s)),
        drop_enum(e).len() <= usize::MAX ==> in_order(drop_enum(e)),
{
    let g = at_entry(Seq::empty(), Seq::empty());
    lemma_entry(Seq::empty(), Seq::empty());
    let types = crate::lowering::field_types(s);
    lemma_drop_words(g, 0, types, types.len());
    lemma_emit(drop_words(g, 0, types, types.len()), Ins::RetVoid);
    let load = Ins::Load(Ty::I64, Val::Param(0));
    lemma_emit(g, load);
    let g1 = emit(g, load);
    lemma_drop_variants(g1, e, reg(g1), e.variants.len());
    lemma_emit(drop_variants(g1, e, reg(g1), e.variants.len()), Ins::RetVoid);
}

/// So it does of the runtime, but for `xia_release`: the counter of its loop
/// over the elements of an array comes from the round before.
pub proof fn law_runtime_values_come_first(rt: Rt)
    requires
        rt != Rt::Release,
    ensures
        in_order(rt_code(rt)),
{
    reveal(crate::runtime::retain_code);
    reveal(crate::runtime::alloc_str_code);
    reveal(crate::runtime::str_concat_code);
    reveal(crate::runtime::str_dup_code);
    reveal(crate::runtime::str_eq_code);
    reveal(crate::runtime::int_to_str_code);
    reveal(crate::runtime::float_to_str_code);
    reveal(crate::runtime::arr_new_code);
    reveal(crate::runtime::arr_push_code);
    reveal(crate::runtime::bounds_fail_code);
    reveal(crate::runtime::arr_get_code);
    reveal(crate::runtime::arr_set_code);
    reveal(crate::runtime::new_code);
    let code = rt_code(rt);
    assert forall|i: int| 0 <= i < code.len() implies #[trigger] uses_made(code, i) by {}
}

} // verus!
