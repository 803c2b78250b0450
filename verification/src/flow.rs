//! Where control goes: every branch of a lowered function leads to a block of
//! that function, and no two blocks have the same label.
use vstd::prelude::*;
use crate::ast::{
    ArmV, BinOp, EnumV, ExprV, FunctionV, KindV, ParamV, ProgramV, StmtV, StructV, Type, UnOp,
};
use crate::counting::{holder, owns_iterable};
use crate::ir::{Callee, Ins, Label, Libc, Mark, Op, Pred, Rt, Ty, Val};
use crate::lowering::{
    all_params, any_heap, arm_test, array_kind, array_room, at_entry, begin, bind_params,
    bind_payload, bind_var, bool_text, branch_if_open, c_main, call, call_rt, consume, consume_heap,
    cx_of, drop_enum, drop_struct, drop_variants, drop_words, emit, enum_drops, field_place, fill,
    flush, foreach_slots, foreach_take, foreach_test, from_word, keep_alive, label,
    lemma_release_keeps, literal, low_advance, low_arm, low_arms, low_array, low_assign, low_bare,
    low_binary, low_block, low_body, low_builtin, low_call, low_cond, low_count, low_elems,
    low_expr, low_exprs, low_field, low_field_assign, low_for, low_foreach, low_function,
    low_functions, low_hold, low_if, low_index, low_index_assign, low_jump, low_len, low_let,
    low_match, low_method, low_print, low_push, low_return, low_short_circuit, low_stmt, low_stmts,
    low_str, low_struct, low_symbol, low_unary, low_var, low_variant, low_while, lowered, new_block,
    pass, pattern_place, pop_scope, printf, push_scope, reg, release, retain, str_op, struct_drops,
    symbol_index, to_word, ty_of, with_c_main, with_runtime, Cx, FnV, Gen, SymbolV, Value,
};
use crate::runtime::{
    alloc_str_code, arr_get_code, arr_new_code, arr_push_code, arr_set_code, bounds_fail_code,
    float_to_str_code, int_to_str_code, new_code, release_code, retain_code, rt_code, rt_order,
    str_concat_code, str_dup_code, str_eq_code,
};

verus! {

// ----- labels -------------------------------------------------------------------------------
/// Whether an instruction names a block.
pub open spec fn names(i: Ins, l: Label) -> bool {
    match i {
        Ins::Br(a) => a == l,
        Ins::CondBr(_, a, b) => a == l || b == l,
        Ins::Phi(_, _, a, _, b) => a == l || b == l,
        _ => false,
    }
}

/// Whether a block of that label begins in some code.
pub open spec fn has_block(code: Seq<Ins>, l: Label) -> bool {
    exists|i: int| 0 <= i < code.len() && #[trigger] code[i] == Ins::Label(l)
}

/// Whether every block that some code names begins in it, and only once.
pub open spec fn closed_flow(code: Seq<Ins>) -> bool {
    &&& forall|i: int, l: Label|
        0 <= i < code.len() && #[trigger] names(code[i], l) ==> has_block(code, l)
    &&& forall|i: int, j: int|
        0 <= i < j < code.len() && (#[trigger] code[i]) is Label && (#[trigger] code[j]) is Label
            ==> code[i] != code[j]
}

/// Whether an instruction neither begins nor names a block.
spec fn quiet(i: Ins) -> bool {
    !(i is Label || i is Br || i is CondBr || i is Phi)
}

spec fn extends(a: Seq<Ins>, b: Seq<Ins>) -> bool {
    &&& a.len() <= b.len()
    &&& forall|i: int| 0 <= i < a.len() ==> #[trigger] b[i] == a[i]
}

/// Whether a step stays in its block.
spec fn straight(g: Gen, g1: Gen) -> bool {
    &&& extends(g.code, g1.code)
    &&& forall|i: int| g.code.len() <= i < g1.code.len() ==> quiet(#[trigger] g1.code[i])
    &&& g1.here == g.here
    &&& g1.loops == g.loops
}

/// Whether the labels of a step are numbered by places within it, or are among
/// its own.
spec fn numbered(g: Gen, g1: Gen, own: Set<Label>) -> bool {
    forall|i: int|
        g.code.len() <= i < g1.code.len() && (#[trigger] g1.code[i]) is Label ==> {
            let l = g1.code[i]->Label_0;
            l.at < g1.code.len() && (g.code.len() <= l.at || own.contains(l))
        }
}

/// Whether no label of a step stands twice in it.
spec fn distinct(g: Gen, g1: Gen) -> bool {
    forall|i: int, j: int|
        g.code.len() <= i < j < g1.code.len() && (#[trigger] g1.code[i]) is Label && (
        #[trigger] g1.code[j]) is Label ==> g1.code[i] != g1.code[j]
}

/// Whether what a step names begins in the code, or is still open.
spec fn led(g: Gen, g1: Gen, open: Set<Label>) -> bool {
    forall|i: int, l: Label|
        g.code.len() <= i < g1.code.len() && #[trigger] names(g1.code[i], l) ==> open.contains(l)
            || has_block(g1.code, l)
}

/// What a step does to the flow of control: it names blocks that begin
/// somewhere, but for those in `open`, and begins blocks of its own, some of
/// which (`own`) were numbered before it.
spec fn flows(g: Gen, g1: Gen, open: Set<Label>, own: Set<Label>) -> bool {
    &&& extends(g.code, g1.code)
    &&& g1.loops == g.loops
    &&& has_block(g.code, g.here) ==> has_block(g1.code, g1.here)
    &&& g1.code.len() <= usize::MAX ==> {
        &&& numbered(g, g1, own)
        &&& distinct(g, g1)
        &&& led(g, g1, open)
    }
}

spec fn none() -> Set<Label> {
    Set::empty()
}

/// The targets of the loops around.
spec fn around(g: Gen) -> Set<Label> {
    Set::new(
        |l: Label|
            exists|k: int|
                0 <= k < g.loops.len() && ((#[trigger] g.loops[k]).0 == l || g.loops[k].1 == l),
    )
}

// ----- steps ---------------------------------------------------------------------------------
proof fn lemma_quiet(g: Gen, i: Ins)
    requires
        quiet(i),
    ensures
        straight(g, emit(g, i)),
{
}

proof fn lemma_straight_then(g: Gen, g1: Gen, g2: Gen)
    requires
        straight(g, g1),
        straight(g1, g2),
    ensures
        straight(g, g2),
{
    assert forall|i: int| 0 <= i < g.code.len() implies #[trigger] g2.code[i] == g.code[i] by {
        assert(g2.code[i] == g1.code[i]);
    }
    assert forall|i: int| g.code.len() <= i < g2.code.len() implies quiet(
        #[trigger] g2.code[i],
    ) by {
        if i < g1.code.len() {
            assert(g2.code[i] == g1.code[i]);
        }
    }
}

proof fn lemma_block_stays(a: Seq<Ins>, b: Seq<Ins>, l: Label)
    requires
        extends(a, b),
        has_block(a, l),
    ensures
        has_block(b, l),
{
    let i = choose|i: int| 0 <= i < a.len() && #[trigger] a[i] == Ins::Label(l);
    assert(b[i] == Ins::Label(l));
}

proof fn lemma_straight_flows(g: Gen, g1: Gen, open: Set<Label>, own: Set<Label>)
    requires
        straight(g, g1),
    ensures
        flows(g, g1, open, own),
{
    if has_block(g.code, g.here) {
        lemma_block_stays(g.code, g1.code, g.here);
    }
    assert forall|i: int, l: Label|
        g.code.len() <= i < g1.code.len() && #[trigger] names(g1.code[i], l) implies open.contains(
        l,
    ) || has_block(g1.code, l) by {
        assert(quiet(g1.code[i]));
    }
    assert forall|i: int| g.code.len() <= i < g1.code.len() implies !((
    #[trigger] g1.code[i]) is Label) by {
        assert(quiet(g1.code[i]));
    }
}

/// Two steps, one after the other.
proof fn lemma_flows_then(
    g: Gen,
    g1: Gen,
    g2: Gen,
    open: Set<Label>,
    own1: Set<Label>,
    own2: Set<Label>,
)
    requires
        flows(g, g1, open, own1),
        flows(g1, g2, open, own2),
        own1.disjoint(own2),
        forall|l: Label| #[trigger] own1.contains(l) ==> l.at < g.code.len(),
        forall|l: Label| #[trigger] own2.contains(l) ==> l.at < g.code.len(),
    ensures
        flows(g, g2, open, own1.union(own2)),
{
    assert forall|i: int| 0 <= i < g.code.len() implies #[trigger] g2.code[i] == g.code[i] by {
        assert(g2.code[i] == g1.code[i]);
    }
    if g2.code.len() <= usize::MAX {
        let own = own1.union(own2);
        assert forall|i: int|
            g.code.len() <= i < g2.code.len() && (#[trigger] g2.code[i]) is Label implies {
            let l = g2.code[i]->Label_0;
            l.at < g2.code.len() && (g.code.len() <= l.at || own.contains(l))
        } by {
            if i < g1.code.len() {
                assert(g2.code[i] == g1.code[i]);
            }
        }
        assert forall|i: int, j: int|
            g.code.len() <= i < j < g2.code.len() && (#[trigger] g2.code[i]) is Label && (
            #[trigger] g2.code[j]) is Label implies g2.code[i] != g2.code[j] by {
            if i < g1.code.len() {
                assert(g2.code[i] == g1.code[i]);
                if j < g1.code.len() {
                    assert(g2.code[j] == g1.code[j]);
                } else {
                    let a = g2.code[i]->Label_0;
                    let b = g2.code[j]->Label_0;
                    assert(a.at < g1.code.len());
                    if b.at < g1.code.len() {
                        assert(own2.contains(b));
                        if a == b {
                            assert(own1.contains(a));
                        }
                    }
                }
            }
        }
        assert forall|i: int, l: Label|
            g.code.len() <= i < g2.code.len() && #[trigger] names(
                g2.code[i],
                l,
            ) implies open.contains(l) || has_block(g2.code, l) by {
            if i < g1.code.len() {
                assert(g2.code[i] == g1.code[i]);
                assert(names(g1.code[i], l));
                if has_block(g1.code, l) {
                    lemma_block_stays(g1.code, g2.code, l);
                }
            }
        }
    }
}

/// Two steps without labels from before.
proof fn lemma_then(g: Gen, g1: Gen, g2: Gen, open: Set<Label>)
    requires
        flows(g, g1, open, none()),
        flows(g1, g2, open, none()),
    ensures
        flows(g, g2, open, none()),
{
    lemma_flows_then(g, g1, g2, open, none(), none());
    assert(none().union(none()) =~= none());
}

/// A straight step after another one.
proof fn lemma_then_straight(g: Gen, g1: Gen, g2: Gen, open: Set<Label>, own: Set<Label>)
    requires
        flows(g, g1, open, own),
        straight(g1, g2),
        forall|l: Label| #[trigger] own.contains(l) ==> l.at < g.code.len(),
    ensures
        flows(g, g2, open, own),
{
    lemma_straight_flows(g1, g2, open, none());
    lemma_flows_then(g, g1, g2, open, own, none());
    assert(own.union(none()) =~= own);
}

/// What is open may be more, or less what begins in the code.
proof fn lemma_opens(g: Gen, g1: Gen, open: Set<Label>, open1: Set<Label>, own: Set<Label>)
    requires
        flows(g, g1, open, own),
        forall|l: Label| #[trigger] open.contains(l) ==> open1.contains(l) || has_block(g1.code, l),
    ensures
        flows(g, g1, open1, own),
{
    if g1.code.len() <= usize::MAX {
        assert forall|i: int, l: Label|
            g.code.len() <= i < g1.code.len() && #[trigger] names(
                g1.code[i],
                l,
            ) implies open1.contains(l) || has_block(g1.code, l) by {}
    }
}

/// A branch.
proof fn lemma_branches(g: Gen, i: Ins, open: Set<Label>)
    requires
        !(i is Label),
        forall|l: Label| #[trigger] names(i, l) ==> open.contains(l) || has_block(g.code, l),
    ensures
        flows(g, emit(g, i), open, none()),
{
    let g1 = emit(g, i);
    if has_block(g.code, g.here) {
        lemma_block_stays(g.code, g1.code, g.here);
    }
    assert forall|k: int, l: Label|
        g.code.len() <= k < g1.code.len() && #[trigger] names(g1.code[k], l) implies open.contains(
        l,
    ) || has_block(g1.code, l) by {
        assert(g1.code[k] == i);
        if has_block(g.code, l) {
            lemma_block_stays(g.code, g1.code, l);
        }
    }
}

/// The beginning of a block that was numbered before.
proof fn lemma_begins(g: Gen, l: Label, open: Set<Label>)
    requires
        l.at < g.code.len(),
    ensures
        flows(g, begin(g, l), open, set![l]),
        has_block(begin(g, l).code, l),
{
    let g1 = begin(g, l);
    assert(g1.code[g.code.len() as int] == Ins::Label(l));
}

/// A construct whose labels are numbered by the place of its first branch.
proof fn lemma_wraps(g: Gen, ga: Gen, gb: Gen, i: Ins, open: Set<Label>, own: Set<Label>)
    requires
        ga == emit(g, i),
        !(i is Label),
        flows(ga, gb, open, own),
        forall|l: Label| #[trigger] names(i, l) ==> open.contains(l) || has_block(gb.code, l),
        forall|l: Label| #[trigger] own.contains(l) ==> l.at == g.code.len() as usize,
    ensures
        flows(g, gb, open, none()),
{
    let n = g.code.len();
    assert forall|k: int| 0 <= k < n implies #[trigger] gb.code[k] == g.code[k] by {
        assert(gb.code[k] == ga.code[k]);
    }
    assert(gb.code[n as int] == ga.code[n as int]);
    if has_block(g.code, g.here) {
        lemma_block_stays(g.code, ga.code, g.here);
    }
    if gb.code.len() <= usize::MAX {
        assert forall|k: int|
            n <= k < gb.code.len() && (#[trigger] gb.code[k]) is Label implies {
            let l = gb.code[k]->Label_0;
            l.at < gb.code.len() && n <= l.at
        } by {}
        assert forall|k: int, l: Label|
            n <= k < gb.code.len() && #[trigger] names(gb.code[k], l) implies open.contains(l)
            || has_block(gb.code, l) by {}
    }
}

// ----- straight steps ----------------------------------------------------------------------
proof fn lemma_pass(g: Gen, args: Seq<Value>)
    ensures
        straight(g, pass(g, args)),
    decreases args.len(),
{
    if args.len() > 0 {
        let before = pass(g, args.drop_last());
        let arg = Ins::Arg(args.last().1, args.last().0);
        lemma_pass(g, args.drop_last());
        lemma_quiet(before, arg);
        lemma_straight_then(g, before, emit(before, arg));
    }
}

proof fn lemma_call(g: Gen, ret: Ty, callee: Callee, args: Seq<Value>)
    ensures
        straight(g, call(g, ret, callee, args)),
{
    reveal(call);
    let g1 = pass(g, args);
    let i = Ins::Call(ret, callee, args.len() as usize);
    lemma_pass(g, args);
    lemma_quiet(g1, i);
    lemma_straight_then(g, g1, emit(g1, i));
}

proof fn lemma_count(g: Gen, v: Val)
    ensures
        straight(g, retain(g, v)),
        straight(g, release(g, v)),
{
    let args = seq![(v, Ty::Ptr)];
    lemma_call(g, Ty::Void, Callee::Runtime(Rt::Retain), args);
    lemma_call(g, Ty::Void, Callee::Runtime(Rt::Release), args);
}

proof fn lemma_flush(g: Gen, from: nat)
    ensures
        straight(g, flush(g, from)),
    decreases g.temps.len(),
{
    if g.temps.len() > from {
        let g1 = Gen { temps: g.temps.drop_last(), ..g };
        let v = g.temps.last();
        lemma_count(g1, v);
        lemma_release_keeps(g1, v);
        let g2 = release(g1, v);
        lemma_flush(g2, from);
        assert(straight(g, g2));
        lemma_straight_then(g, g2, flush(g2, from));
    }
}

proof fn lemma_words(g: Gen, v: Val, elem: Type)
    ensures
        straight(g, to_word(g, v, elem).0),
        straight(g, from_word(g, v, elem).0),
{
}

proof fn lemma_straight_pieces(g: Gen, name: Seq<char>, op: UnOp, v: Value, s: Seq<char>)
    ensures
        low_var(g, name) matches Ok((g1, w)) ==> straight(g, g1),
        low_unary(g, op, v) matches Ok((g1, w)) ==> straight(g, g1),
        straight(g, literal(g, s).0),
{
    reveal(low_var);
    reveal(low_unary);
}

proof fn lemma_str_op(g: Gen, op: BinOp, l: Val, r: Val)
    ensures
        str_op(g, op, l, r) matches Ok((g1, w)) ==> straight(g, g1),
{
    reveal(str_op);
    let args = seq![(l, Ty::Ptr), (r, Ty::Ptr)];
    lemma_call(g, Ty::Ptr, Callee::Runtime(Rt::StrConcat), args);
    lemma_call(g, Ty::I1, Callee::Runtime(Rt::StrEq), args);
    let g1 = call_rt(g, Ty::I1, Rt::StrEq, args);
    let flip = Ins::Bin(Op::Xor, Ty::I1, reg(g1), Val::Bool(true));
    lemma_quiet(g1, flip);
    lemma_straight_then(g, g1, emit(g1, flip));
}

proof fn lemma_binary(g: Gen, op: BinOp, l: Value, r: Value)
    ensures
        low_binary(g, op, l, r) matches Ok((g1, w)) ==> straight(g, g1),
{
    reveal(low_binary);
    lemma_str_op(g, op, l.0, r.0);
}

proof fn lemma_bool_text(g: Gen, v: Val)
    ensures
        straight(g, bool_text(g, v).0),
{
    reveal(bool_text);
}

proof fn lemma_printf(g: Gen, format: Seq<char>, v: Value)
    ensures
        straight(g, printf(g, format, v)),
{
    reveal(printf);
    let (g1, f) = literal(g, format);
    lemma_call(g1, Ty::I32, Callee::C(Libc::Printf), seq![(f, Ty::Ptr), v]);
}

proof fn lemma_builtin(g: Gen, name: Seq<char>, v: Val, ty: Option<Type>)
    ensures
        low_builtin(g, name, v, ty) matches Ok((g1, w)) ==> straight(g, g1),
{
    reveal(low_builtin);
    if name == "print"@ {
        reveal(low_print);
        lemma_printf(g, "%lld\n"@, (v, Ty::I64));
        lemma_printf(g, "%g\n"@, (v, Ty::F64));
        lemma_printf(g, "%s\n"@, (v, Ty::Ptr));
        lemma_bool_text(g, v);
        let (g1, s) = bool_text(g, v);
        lemma_printf(g1, "%s\n"@, (s, Ty::Ptr));
        lemma_straight_then(g, g1, printf(g1, "%s\n"@, (s, Ty::Ptr)));
    } else if name == "str"@ {
        reveal(low_str);
        lemma_call(g, Ty::Ptr, Callee::Runtime(Rt::IntToStr), seq![(v, Ty::I64)]);
        lemma_call(g, Ty::Ptr, Callee::Runtime(Rt::FloatToStr), seq![(v, Ty::F64)]);
        lemma_call(g, Ty::Ptr, Callee::Runtime(Rt::StrDup), seq![(v, Ty::Ptr)]);
        lemma_bool_text(g, v);
    } else {
        reveal(low_len);
        lemma_call(g, Ty::I64, Callee::C(Libc::Strlen), seq![(v, Ty::Ptr)]);
        lemma_quiet(g, Ins::Load(Ty::I64, v));
    }
}

proof fn lemma_push(g: Gen, arr: Val, v: Val, elem: Type)
    ensures
        straight(g, low_push(g, arr, v, elem)),
{
    reveal(low_push);
    lemma_words(g, v, elem);
    let (g1, w) = to_word(g, v, elem);
    let args = seq![(arr, Ty::Ptr), (w, Ty::I64)];
    lemma_call(g1, Ty::Void, Callee::Runtime(Rt::ArrPush), args);
    lemma_straight_then(g, g1, call_rt(g1, Ty::Void, Rt::ArrPush, args));
}

proof fn lemma_symbol(cx: Cx, g: Gen, index: usize, args: Seq<Value>)
    ensures
        straight(g, low_symbol(cx, g, index, args).0),
{
    reveal(low_symbol);
    let sym = cx.symbols[index as int];
    lemma_call(g, ty_of(sym.ret), Callee::Symbol(index), args);
    let g1 = call(g, ty_of(sym.ret), Callee::Symbol(index), args);
    let copy = seq![(reg(g1), Ty::Ptr)];
    lemma_call(g1, Ty::Ptr, Callee::Runtime(Rt::StrDup), copy);
    lemma_straight_then(g, g1, call_rt(g1, Ty::Ptr, Rt::StrDup, copy));
}

proof fn lemma_fill(g: Gen, block: Val, at: nat, types: Seq<Type>, vals: Seq<Value>)
    ensures
        straight(g, fill(g, block, at, types, vals)),
    decreases vals.len(),
{
    if vals.len() > 0 {
        let i = vals.len() - 1;
        let g1 = fill(g, block, at, types, vals.drop_last());
        lemma_fill(g, block, at, types, vals.drop_last());
        lemma_count(g1, vals[i].0);
        let g2 = if types[i].heap() {
            retain(g1, vals[i].0)
        } else {
            g1
        };
        let gep = Ins::Gep(Ty::I64, block, Val::Int((at + i) as i64));
        let g3 = emit(g2, gep);
        let store = Ins::Store(ty_of(types[i]), vals[i].0, reg(g3));
        lemma_quiet(g2, gep);
        lemma_quiet(g3, store);
        if types[i].heap() {
            lemma_straight_then(g, g1, g2);
        }
        lemma_straight_then(g, g2, g3);
        lemma_straight_then(g, g3, emit(g3, store));
    }
}

proof fn lemma_struct(cx: Cx, g: Gen, id: u32, vals: Seq<Value>)
    ensures
        straight(g, low_struct(cx, g, id, vals).0),
{
    reveal(low_struct);
    let types = crate::lowering::field_types(cx.structs[id as int]);
    let kind = if any_heap(types) {
        Val::DropStruct(id)
    } else {
        Val::Null
    };
    let args = seq![(kind, Ty::Ptr), (Val::Int(vals.len() as i64), Ty::I64)];
    lemma_call(g, Ty::Ptr, Callee::Runtime(Rt::New), args);
    let g1 = new_block(g, kind, vals.len());
    lemma_fill(g1, reg(g1), 0, types, vals);
    lemma_straight_then(g, g1, fill(g1, reg(g1), 0, types, vals));
}

proof fn lemma_variant(cx: Cx, g: Gen, eid: u32, vid: u32, vals: Seq<Value>)
    ensures
        straight(g, low_variant(cx, g, eid, vid, vals).0),
{
    reveal(low_variant);
    let def = cx.enums[eid as int];
    let types = def.variants[vid as int].fields;
    let kind = if crate::lowering::enum_owns(def) {
        Val::DropEnum(eid)
    } else {
        Val::Null
    };
    let words = vals.len() + 1;
    let args = seq![(kind, Ty::Ptr), (Val::Int(words as i64), Ty::I64)];
    lemma_call(g, Ty::Ptr, Callee::Runtime(Rt::New), args);
    let g1 = new_block(g, kind, words);
    let tag = Ins::Store(Ty::I64, Val::Int(vid as i64), reg(g1));
    lemma_quiet(g1, tag);
    let g2 = emit(g1, tag);
    lemma_fill(g2, reg(g1), 1, types, vals);
    lemma_straight_then(g, g1, g2);
    lemma_straight_then(g, g2, fill(g2, reg(g1), 1, types, vals));
}

proof fn lemma_parts(g: Gen, base: Val, index: int, ty: Type, i: Val)
    ensures
        straight(g, low_field(g, base, index, ty).0),
        straight(g, low_index(g, base, i, ty).0),
{
    reveal(low_field);
    reveal(low_index);
    let gep = Ins::Gep(Ty::I64, base, Val::Int(index as i64));
    let g1 = emit(g, gep);
    let load = Ins::Load(ty_of(ty), reg(g1));
    let g2 = emit(g1, load);
    lemma_quiet(g, gep);
    lemma_quiet(g1, load);
    lemma_straight_then(g, g1, g2);
    lemma_count(g2, reg(g2));
    lemma_straight_then(g, g2, retain(g2, reg(g2)));
    let args = seq![(base, Ty::Ptr), (i, Ty::I64)];
    lemma_call(g, Ty::I64, Callee::Runtime(Rt::ArrGet), args);
    let h1 = call_rt(g, Ty::I64, Rt::ArrGet, args);
    lemma_words(h1, reg(h1), ty);
    lemma_straight_then(g, h1, from_word(h1, reg(h1), ty).0);
}

// ----- expressions ----------------------------------------------------------------------------
proof fn lemma_expr(cx: Cx, g: Gen, e: ExprV)
    requires
        has_block(g.code, g.here),
    ensures
        low_expr(cx, g, e) matches Ok((g1, v)) ==> flows(g, g1, none(), none()),
    decreases e, 2nat,
{
    if let Ok((g1, v)) = low_expr(cx, g, e) {
        match e.kind {
            KindV::Str(s) => {
                lemma_straight_pieces(g, s, UnOp::Neg, (Val::Null, Ty::Ptr), s);
                lemma_straight_flows(g, g1, none(), none());
            },
            KindV::Var(name) => {
                lemma_straight_pieces(g, name, UnOp::Neg, (Val::Null, Ty::Ptr), name);
                lemma_straight_flows(g, g1, none(), none());
            },
            KindV::Unary(op, a) => {
                lemma_expr(cx, g, *a);
                let (ga, va) = low_expr(cx, g, *a)->Ok_0;
                lemma_straight_pieces(ga, Seq::empty(), op, va, Seq::empty());
                lemma_then_straight(g, ga, g1, none(), none());
            },
            KindV::Binary(a, op, b) => {
                if op == BinOp::And || op == BinOp::Or {
                    lemma_short_circuit(cx, g, e);
                } else {
                    lemma_expr(cx, g, *a);
                    let (ga, l) = low_expr(cx, g, *a)->Ok_0;
                    lemma_expr(cx, ga, *b);
                    let (gb, r) = low_expr(cx, ga, *b)->Ok_0;
                    lemma_then(g, ga, gb, none());
                    lemma_binary(gb, op, l, r);
                    lemma_then_straight(g, gb, g1, none(), none());
                }
            },
            KindV::Call(name, args) => {
                lemma_call_expr(cx, g, name, args, e.span.line);
            },
            KindV::MethodCall(recv, name, args) => {
                lemma_method(cx, g, e);
            },
            KindV::ArrayLit(es) => {
                lemma_array(cx, g, es, e.ty);
            },
            KindV::Index(a, b) => {
                let elem = a.ty->0.elem()->0;
                lemma_expr(cx, g, *a);
                let (ga, arr) = low_expr(cx, g, *a)->Ok_0;
                lemma_expr(cx, ga, *b);
                let (gb, i) = low_expr(cx, ga, *b)->Ok_0;
                lemma_then(g, ga, gb, none());
                lemma_parts(gb, arr.0, 0, elem, i.0);
                lemma_then_straight(g, gb, g1, none(), none());
            },
            KindV::Field(a, name) => {
                let (index, ty) = field_place(cx, a.ty, name)->0;
                lemma_expr(cx, g, *a);
                let (ga, base) = low_expr(cx, g, *a)->Ok_0;
                lemma_parts(ga, base.0, index, ty, base.0);
                lemma_then_straight(g, ga, g1, none(), none());
            },
            KindV::EnumInit(eid, vid, args) => {
                lemma_exprs(cx, g, args, args.len());
                let (ga, vals) = low_exprs(cx, g, args, args.len())->Ok_0;
                lemma_variant(cx, ga, eid, vid, vals);
                lemma_then_straight(g, ga, g1, none(), none());
            },
            _ => {
                lemma_straight_flows(g, g1, none(), none());
            },
        }
    }
}

proof fn lemma_exprs(cx: Cx, g: Gen, es: Seq<ExprV>, n: nat)
    requires
        has_block(g.code, g.here),
    ensures
        low_exprs(cx, g, es, n) matches Ok((g1, vals)) ==> flows(g, g1, none(), none()),
    decreases es, n,
{
    if n == 0 || n > es.len() {
        lemma_straight_flows(g, g, none(), none());
    } else {
        lemma_exprs(cx, g, es, (n - 1) as nat);
        if let Ok((g1, vals)) = low_exprs(cx, g, es, (n - 1) as nat) {
            lemma_expr(cx, g1, es[n - 1]);
            if let Ok((g2, v)) = low_expr(cx, g1, es[n - 1]) {
                lemma_then(g, g1, g2, none());
            }
        }
    }
}

proof fn lemma_short_circuit(cx: Cx, g: Gen, e: ExprV)
    requires
        has_block(g.code, g.here),
    ensures
        low_short_circuit(cx, g, e) matches Ok((g1, v)) ==> flows(g, g1, none(), none()),
    decreases e, 1nat,
{
    if let KindV::Binary(a, op, b) = e.kind {
        let checkpoint = g.temps.len();
        lemma_expr(cx, g, *a);
        if let Ok((g1, l)) = low_expr(cx, g, *a) {
            lemma_flush(g1, checkpoint);
            let g2 = flush(g1, checkpoint);
            lemma_then_straight(g, g1, g2, none(), none());
            let rhs = label(g2, Mark::ScRhs);
            let end = label(g2, Mark::ScEnd);
            let branch = if op == BinOp::And {
                Ins::CondBr(l.0, rhs, end)
            } else {
                Ins::CondBr(l.0, end, rhs)
            };
            let g3 = emit(g2, branch);
            let ga = begin(g3, rhs);
            assert(has_block(ga.code, rhs)) by {
                assert(ga.code[g3.code.len() as int] == Ins::Label(rhs));
            }
            lemma_expr(cx, ga, *b);
            if let Ok((g4, r)) = low_expr(cx, ga, *b) {
                lemma_flush(g4, checkpoint);
                let g5 = flush(g4, checkpoint);
                lemma_then_straight(ga, g4, g5, none(), none());
                let g6 = emit(g5, Ins::Br(end));
                let gb = begin(g6, end);
                let phi = Ins::Phi(
                    Ty::I1,
                    Val::Bool(op == BinOp::Or),
                    g2.here,
                    r.0,
                    g5.here,
                );
                let g7 = emit(gb, phi);
                let open = set![end];
                lemma_begins(g3, rhs, open);
                lemma_opens(ga, g5, none(), open, none());
                lemma_flows_then(g3, ga, g5, open, set![rhs], none());
                assert(set![rhs].union(none()) =~= set![rhs]);
                lemma_branches(g5, Ins::Br(end), open);
                lemma_flows_then(g3, g5, g6, open, set![rhs], none());
                lemma_begins(g6, end, open);
                lemma_flows_then(g3, g6, gb, open, set![rhs], set![end]);
                let own = set![rhs].union(set![end]);
                assert(has_block(gb.code, g2.here)) by {
                    lemma_block_stays(g2.code, g3.code, g2.here);
                    lemma_block_stays(g3.code, gb.code, g2.here);
                }
                assert(has_block(gb.code, g5.here)) by {
                    lemma_block_stays(g5.code, g6.code, g5.here);
                    lemma_block_stays(g6.code, gb.code, g5.here);
                }
                lemma_branches(gb, phi, open);
                lemma_flows_then(g3, gb, g7, open, own, none());
                assert(own.union(none()) =~= own);
                lemma_block_stays(gb.code, g7.code, end);
                lemma_block_stays(ga.code, g7.code, rhs);
                lemma_opens(g3, g7, open, none(), own);
                lemma_wraps(g2, g3, g7, branch, none(), own);
                lemma_then(g, g2, g7, none());
            }
        }
    }
}

proof fn lemma_call_expr(cx: Cx, g: Gen, name: Seq<char>, args: Seq<ExprV>, line: usize)
    requires
        has_block(g.code, g.here),
    ensures
        low_call(cx, g, name, args, line) matches Ok((g1, v)) ==> flows(g, g1, none(), none()),
    decreases args, args.len() + 2,
{
    if let Ok((g1, v)) = low_call(cx, g, name, args, line) {
        if crate::lowering::one_argument(name) {
            lemma_expr(cx, g, args[0]);
            let (ga, va) = low_expr(cx, g, args[0])->Ok_0;
            lemma_builtin(ga, name, va.0, args[0].ty);
            lemma_then_straight(g, ga, g1, none(), none());
        } else if name == "push"@ {
            let elem = args[0].ty->0.elem()->0;
            lemma_expr(cx, g, args[0]);
            let (ga, arr) = low_expr(cx, g, args[0])->Ok_0;
            lemma_expr(cx, ga, args[1]);
            let (gb, va) = low_expr(cx, ga, args[1])->Ok_0;
            lemma_then(g, ga, gb, none());
            lemma_push(gb, arr.0, va.0, elem);
            lemma_then_straight(g, gb, g1, none(), none());
        } else {
            lemma_exprs(cx, g, args, args.len());
            let (ga, vals) = low_exprs(cx, g, args, args.len())->Ok_0;
            if cx.struct_ids.contains_key(name) {
                lemma_struct(cx, ga, cx.struct_ids[name], vals);
            } else {
                lemma_symbol(cx, ga, cx.callees[name], vals);
            }
            lemma_then_straight(g, ga, g1, none(), none());
        }
    }
}

proof fn lemma_method(cx: Cx, g: Gen, e: ExprV)
    requires
        has_block(g.code, g.here),
    ensures
        low_method(cx, g, e) matches Ok((g1, v)) ==> flows(g, g1, none(), none()),
    decreases e, 1nat,
{
    if let KindV::MethodCall(recv, name, args) = e.kind {
        if let Ok((g1, v)) = low_method(cx, g, e) {
            let index = crate::lowering::method_place(cx, recv.ty, name)->0;
            lemma_expr(cx, g, *recv);
            let (ga, base) = low_expr(cx, g, *recv)->Ok_0;
            lemma_exprs(cx, ga, args, args.len());
            let (gb, vals) = low_exprs(cx, ga, args, args.len())->Ok_0;
            lemma_then(g, ga, gb, none());
            lemma_symbol(cx, gb, index, seq![base] + vals);
            lemma_then_straight(g, gb, g1, none(), none());
        }
    }
}

proof fn lemma_array(cx: Cx, g: Gen, es: Seq<ExprV>, ty: Option<Type>)
    requires
        has_block(g.code, g.here),
    ensures
        low_array(cx, g, es, ty) matches Ok((g1, v)) ==> flows(g, g1, none(), none()),
    decreases es, es.len() + 2,
{
    if let Ok((g1, v)) = low_array(cx, g, es, ty) {
        let elem = ty->0.elem()->0;
        let args = seq![
            (Val::Int(array_kind(elem)), Ty::I64),
            (Val::Int(array_room(es.len())), Ty::I64),
        ];
        lemma_call(g, Ty::Ptr, Callee::Runtime(Rt::ArrNew), args);
        let ga = call_rt(g, Ty::Ptr, Rt::ArrNew, args);
        lemma_straight_flows(g, ga, none(), none());
        lemma_elems(cx, ga, reg(ga), elem, es, es.len());
        let gb = low_elems(cx, ga, reg(ga), elem, es, es.len())->Ok_0;
        lemma_then(g, ga, gb, none());
        assert(straight(gb, g1));
        lemma_then_straight(g, gb, g1, none(), none());
    }
}

proof fn lemma_elems(cx: Cx, g: Gen, arr: Val, elem: Type, es: Seq<ExprV>, n: nat)
    requires
        has_block(g.code, g.here),
    ensures
        low_elems(cx, g, arr, elem, es, n) matches Ok(g1) ==> flows(g, g1, none(), none()),
    decreases es, n,
{
    if n == 0 || n > es.len() {
        lemma_straight_flows(g, g, none(), none());
    } else {
        lemma_elems(cx, g, arr, elem, es, (n - 1) as nat);
        if let Ok(g1) = low_elems(cx, g, arr, elem, es, (n - 1) as nat) {
            lemma_expr(cx, g1, es[n - 1]);
            if let Ok((g2, v)) = low_expr(cx, g1, es[n - 1]) {
                lemma_then(g, g1, g2, none());
                lemma_push(g2, arr, v.0, elem);
                lemma_then_straight(g, g2, low_push(g2, arr, v.0, elem), none(), none());
            }
        }
    }
}

// ----- steps of a construct ---------------------------------------------------------------------
/// Whether some labels were numbered before a step.
spec fn before(own: Set<Label>, g: Gen) -> bool {
    forall|l: Label| #[trigger] own.contains(l) ==> l.at < g.code.len()
}

/// One more step without labels from before.
proof fn lemma_step(g: Gen, g1: Gen, g2: Gen, open: Set<Label>, own: Set<Label>)
    requires
        flows(g, g1, open, own),
        flows(g1, g2, open, none()),
        before(own, g),
    ensures
        flows(g, g2, open, own),
{
    lemma_flows_then(g, g1, g2, open, own, none());
    assert(own.union(none()) =~= own);
}

/// The beginning of one more block that was numbered before.
proof fn lemma_step_begin(g: Gen, g1: Gen, l: Label, open: Set<Label>, own: Set<Label>)
    requires
        flows(g, g1, open, own),
        before(own, g),
        l.at < g.code.len(),
        !own.contains(l),
    ensures
        flows(g, begin(g1, l), open, own.insert(l)),
        before(own.insert(l), g),
        has_block(begin(g1, l).code, l),
{
    lemma_begins(g1, l, open);
    lemma_flows_then(g, g1, begin(g1, l), open, own, set![l]);
    assert(own.union(set![l]) =~= own.insert(l));
}

/// A branch to a block that is open, where the block at hand still lacks an
/// end.
proof fn lemma_branch_on(g: Gen, l: Label, open: Set<Label>)
    requires
        open.contains(l) || has_block(g.code, l),
    ensures
        flows(g, branch_if_open(g, l), open, none()),
{
    if g.open {
        lemma_branches(g, Ins::Br(l), open);
    } else {
        lemma_straight_flows(g, g, open, none());
    }
}

// ----- simple statements ------------------------------------------------------------------------
proof fn lemma_bind(g: Gen, name: Seq<char>, ty: Type, v: Val)
    ensures
        straight(g, bind_var(g, name, ty, v)),
{
    let slot = Ins::Alloca(ty_of(ty));
    let g1 = emit(g, slot);
    let store = Ins::Store(ty_of(ty), v, Val::Reg((g1.code.len() - 1) as usize));
    lemma_quiet(g, slot);
    lemma_quiet(g1, store);
    lemma_straight_then(g, g1, emit(g1, store));
}

/// An expression, and a straight step with its value behind it.
proof fn lemma_expr_then(cx: Cx, g: Gen, e: ExprV, g2: Gen)
    requires
        has_block(g.code, g.here),
        low_expr(cx, g, e) is Ok,
        straight(low_expr(cx, g, e)->Ok_0.0, g2),
    ensures
        flows(g, g2, none(), none()),
{
    lemma_expr(cx, g, e);
    lemma_then_straight(g, low_expr(cx, g, e)->Ok_0.0, g2, none(), none());
}

proof fn lemma_let(cx: Cx, g: Gen, name: Seq<char>, ty: Option<Type>, value: ExprV)
    requires
        has_block(g.code, g.here),
    ensures
        low_let(cx, g, name, ty, value) matches Ok(g1) ==> flows(g, g1, none(), none()),
{
    reveal(low_let);
    if let Ok(g4) = low_let(cx, g, name, ty, value) {
        let (g1, v) = low_expr(cx, g, value)->Ok_0;
        lemma_bind(g1, name, ty->0, v.0);
        let g2 = bind_var(g1, name, ty->0, v.0);
        let g3 = consume_heap(g2, v.0, ty);
        lemma_flush(g3, 0);
        assert(straight(g2, g4));
        lemma_straight_then(g1, g2, g4);
        lemma_expr_then(cx, g, value, g4);
    }
}

proof fn lemma_assign(cx: Cx, g: Gen, name: Seq<char>, value: ExprV)
    requires
        has_block(g.code, g.here),
    ensures
        low_assign(cx, g, name, value) matches Ok(g1) ==> flows(g, g1, none(), none()),
{
    reveal(low_assign);
    if let Ok(g9) = low_assign(cx, g, name, value) {
        let (slot, ty) = crate::lowering::find_var(g.vars, name)->0;
        let (g1, v) = low_expr(cx, g, value)->Ok_0;
        let t = ty_of(ty);
        let store = Ins::Store(t, v.0, Val::Reg(slot));
        if ty.heap() {
            lemma_count(g1, v.0);
            let g2 = if value.kind is Var {
                retain(g1, v.0)
            } else {
                g1
            };
            let load = Ins::Load(t, Val::Reg(slot));
            let g3 = emit(g2, load);
            let g4 = emit(g3, store);
            lemma_quiet(g2, load);
            lemma_quiet(g3, store);
            lemma_straight_then(g2, g3, g4);
            assert(straight(g1, g2));
            lemma_straight_then(g1, g2, g4);
            lemma_count(g4, reg(g3));
            let g5 = release(g4, reg(g3));
            lemma_straight_then(g1, g4, g5);
            let g6 = consume(g5, v.0);
            lemma_flush(g6, 0);
            assert(straight(g5, g9));
            lemma_straight_then(g1, g5, g9);
        } else {
            let g2 = emit(g1, store);
            lemma_quiet(g1, store);
            lemma_flush(g2, 0);
            lemma_straight_then(g1, g2, g9);
        }
        lemma_expr_then(cx, g, value, g9);
    }
}

proof fn lemma_index_assign(cx: Cx, g: Gen, target: ExprV, index: ExprV, value: ExprV)
    requires
        has_block(g.code, g.here),
    ensures
        low_index_assign(cx, g, target, index, value) matches Ok(g1) ==> flows(
            g,
            g1,
            none(),
            none(),
        ),
{
    reveal(low_index_assign);
    if let Ok(g9) = low_index_assign(cx, g, target, index, value) {
        let elem = target.ty->0.elem()->0;
        lemma_expr(cx, g, target);
        let (g1, arr) = low_expr(cx, g, target)->Ok_0;
        lemma_expr(cx, g1, index);
        let (g2, i) = low_expr(cx, g1, index)->Ok_0;
        lemma_expr(cx, g2, value);
        let (g3, v) = low_expr(cx, g2, value)->Ok_0;
        lemma_then(g, g1, g2, none());
        lemma_then(g, g2, g3, none());
        lemma_words(g3, v.0, elem);
        let (g4, w) = to_word(g3, v.0, elem);
        let args = seq![(arr.0, Ty::Ptr), (i.0, Ty::I64), (w, Ty::I64)];
        lemma_call(g4, Ty::Void, Callee::Runtime(Rt::ArrSet), args);
        let g5 = call_rt(g4, Ty::Void, Rt::ArrSet, args);
        lemma_straight_then(g3, g4, g5);
        lemma_flush(g5, 0);
        lemma_straight_then(g3, g5, g9);
        lemma_then_straight(g, g3, g9, none(), none());
    }
}

proof fn lemma_field_assign(cx: Cx, g: Gen, target: ExprV, field: Seq<char>, value: ExprV)
    requires
        has_block(g.code, g.here),
    ensures
        low_field_assign(cx, g, target, field, value) matches Ok(g1) ==> flows(
            g,
            g1,
            none(),
            none(),
        ),
{
    reveal(low_field_assign);
    if let Ok(g9) = low_field_assign(cx, g, target, field, value) {
        let (index, ty) = field_place(cx, target.ty, field)->0;
        lemma_expr(cx, g, target);
        let (g1, base) = low_expr(cx, g, target)->Ok_0;
        lemma_expr(cx, g1, value);
        let (g2, v) = low_expr(cx, g1, value)->Ok_0;
        lemma_then(g, g1, g2, none());
        let gep = Ins::Gep(Ty::I64, base.0, Val::Int(index as i64));
        let g3 = emit(g2, gep);
        lemma_quiet(g2, gep);
        let slot = reg(g3);
        if ty.heap() {
            lemma_count(g3, v.0);
            let g4 = retain(g3, v.0);
            let load = Ins::Load(Ty::Ptr, slot);
            let g5 = emit(g4, load);
            let store = Ins::Store(Ty::Ptr, v.0, slot);
            let g6 = emit(g5, store);
            lemma_quiet(g4, load);
            lemma_quiet(g5, store);
            lemma_count(g6, reg(g5));
            let g7 = release(g6, reg(g5));
            lemma_straight_then(g2, g3, g4);
            lemma_straight_then(g2, g4, g5);
            lemma_straight_then(g2, g5, g6);
            lemma_straight_then(g2, g6, g7);
            lemma_flush(g7, 0);
            lemma_straight_then(g2, g7, g9);
        } else {
            let store = Ins::Store(ty_of(ty), v.0, slot);
            let g4 = emit(g3, store);
            lemma_quiet(g3, store);
            lemma_straight_then(g2, g3, g4);
            lemma_flush(g4, 0);
            lemma_straight_then(g2, g4, g9);
        }
        lemma_then_straight(g, g2, g9, none(), none());
    }
}

proof fn lemma_bare(cx: Cx, g: Gen, e: ExprV)
    requires
        has_block(g.code, g.here),
    ensures
        low_bare(cx, g, e) matches Ok(g1) ==> flows(g, g1, none(), none()),
{
    reveal(low_bare);
    if let Ok(g9) = low_bare(cx, g, e) {
        let g1 = match (e.kind, e.ty) {
            (KindV::Call(name, args), Some(Type::Unit)) => {
                lemma_call_expr(cx, g, name, args, e.span.line);
                low_call(cx, g, name, args, e.span.line)->Ok_0.0
            },
            (KindV::MethodCall(..), Some(Type::Unit)) => {
                lemma_method(cx, g, e);
                low_method(cx, g, e)->Ok_0.0
            },
            _ => {
                lemma_expr(cx, g, e);
                low_expr(cx, g, e)->Ok_0.0
            },
        };
        lemma_flush(g1, 0);
        lemma_then_straight(g, g1, g9, none(), none());
    }
}

proof fn lemma_return(cx: Cx, g: Gen, value: Option<ExprV>)
    requires
        has_block(g.code, g.here),
    ensures
        low_return(cx, g, value) matches Ok(g1) ==> flows(g, g1, none(), none()),
{
    reveal(low_return);
    if let Ok(g9) = low_return(cx, g, value) {
        match value {
            None => {
                lemma_flush(g, 0);
                let g1 = flush(g, 0);
                lemma_quiet(g1, Ins::RetVoid);
                lemma_straight_then(g, g1, g9);
                lemma_straight_flows(g, g9, none(), none());
            },
            Some(e) => {
                let (g1, v) = low_expr(cx, g, e)->Ok_0;
                let g2 = consume_heap(g1, v.0, e.ty);
                lemma_flush(g2, 0);
                let g3 = flush(g2, 0);
                assert(straight(g1, g3));
                let ret = Ins::Ret(v.1, v.0);
                lemma_quiet(g3, ret);
                lemma_straight_then(g1, g3, g9);
                lemma_expr_then(cx, g, e, g9);
            },
        }
    }
}

proof fn lemma_counts(g: Gen, name: Seq<char>, up: bool)
    ensures
        low_count(g, name, up) matches Ok(g1) ==> straight(g, g1),
{
    reveal(low_count);
    if let Ok(g9) = low_count(g, name, up) {
        let (slot, ty) = crate::lowering::find_hidden(
            g.vars,
            crate::naming::bare(name),
            crate::naming::primes(name),
        )->0;
        let load = Ins::Load(ty_of(ty), Val::Reg(slot));
        let g1 = emit(g, load);
        lemma_quiet(g, load);
        lemma_count(g1, reg(g1));
        lemma_straight_then(g, g1, g9);
    }
}

proof fn lemma_jump(g: Gen, out: bool)
    ensures
        low_jump(g, out) matches Ok(g1) ==> flows(g, g1, around(g), none()),
{
    reveal(low_jump);
    if g.loops.len() > 0 {
        let last = g.loops[g.loops.len() - 1];
        let l = if out {
            last.1
        } else {
            last.0
        };
        assert(around(g).contains(l));
        lemma_branches(g, Ins::Br(l), around(g));
    }
}

// ----- statements --------------------------------------------------------------------------------
/// What is not open need not be.
proof fn lemma_opens_more(g: Gen, g1: Gen, open: Set<Label>)
    requires
        flows(g, g1, none(), none()),
    ensures
        flows(g, g1, open, none()),
{
    lemma_opens(g, g1, none(), open, none());
}

proof fn lemma_stmt(cx: Cx, g: Gen, s: StmtV)
    requires
        has_block(g.code, g.here),
    ensures
        low_stmt(cx, g, s) matches Ok(g1) ==> flows(g, g1, around(g), none()),
    decreases s, 2nat,
{
    if let Ok(g1) = low_stmt(cx, g, s) {
        match s {
            StmtV::Let { name, ty, value, line } => {
                lemma_let(cx, g, name, ty, value);
                lemma_opens_more(g, g1, around(g));
            },
            StmtV::Assign { name, value, line } => {
                lemma_assign(cx, g, name, value);
                lemma_opens_more(g, g1, around(g));
            },
            StmtV::IndexAssign { target, index, value, line } => {
                lemma_index_assign(cx, g, target, index, value);
                lemma_opens_more(g, g1, around(g));
            },
            StmtV::FieldAssign { target, field, value, line } => {
                lemma_field_assign(cx, g, target, field, value);
                lemma_opens_more(g, g1, around(g));
            },
            StmtV::Expr(e) => {
                lemma_bare(cx, g, e);
                lemma_opens_more(g, g1, around(g));
            },
            StmtV::Return { value, line } => {
                lemma_return(cx, g, value);
                lemma_opens_more(g, g1, around(g));
            },
            StmtV::If { .. } => {
                lemma_if(cx, g, s);
            },
            StmtV::While { .. } => {
                lemma_while(cx, g, s);
            },
            StmtV::For { .. } => {
                lemma_for(cx, g, s);
            },
            StmtV::ForEach { .. } => {
                lemma_foreach(cx, g, s);
            },
            StmtV::Match { .. } => {
                lemma_match(cx, g, s);
            },
            StmtV::Break { line } => {
                lemma_jump(g, true);
            },
            StmtV::Continue { line } => {
                lemma_jump(g, false);
            },
            StmtV::Retain(name) => {
                lemma_counts(g, name, true);
                lemma_straight_flows(g, g1, around(g), none());
            },
            StmtV::Release(name) => {
                lemma_counts(g, name, false);
                lemma_straight_flows(g, g1, around(g), none());
            },
        }
    }
}

proof fn lemma_block(cx: Cx, g: Gen, b: Seq<StmtV>)
    requires
        has_block(g.code, g.here),
    ensures
        low_block(cx, g, b) matches Ok(g1) ==> flows(g, g1, around(g), none()),
    decreases b, b.len() + 1,
{
    let g0 = push_scope(g);
    lemma_stmts(cx, g0, b, 0);
    assert(around(g0) == around(g));
    if let Ok(g1) = low_stmts(cx, g0, b, 0) {
        lemma_same(g0, g1, g, pop_scope(g1), around(g), none());
    }
}

/// The flow does not depend on variables and temporaries.
proof fn lemma_same(a: Gen, a1: Gen, b: Gen, b1: Gen, open: Set<Label>, own: Set<Label>)
    requires
        flows(a, a1, open, own),
        a.code == b.code,
        a.here == b.here,
        a1.code == b1.code,
        a1.here == b1.here,
        b1.loops == b.loops,
    ensures
        flows(b, b1, open, own),
{
}

proof fn lemma_stmts(cx: Cx, g: Gen, b: Seq<StmtV>, i: int)
    requires
        has_block(g.code, g.here),
        0 <= i,
    ensures
        low_stmts(cx, g, b, i) matches Ok(g1) ==> flows(g, g1, around(g), none()),
    decreases b, b.len() - i,
{
    if i < b.len() && g.open {
        lemma_stmt(cx, g, b[i]);
        if let Ok(g1) = low_stmt(cx, g, b[i]) {
            lemma_stmts(cx, g1, b, i + 1);
            if let Ok(g2) = low_stmts(cx, g1, b, i + 1) {
                assert(around(g1) == around(g));
                lemma_then(g, g1, g2, around(g));
            }
        }
    } else {
        lemma_straight_flows(g, g, around(g), none());
    }
}

proof fn lemma_cond(cx: Cx, g: Gen, e: ExprV)
    requires
        has_block(g.code, g.here),
    ensures
        low_cond(cx, g, e) matches Ok((g1, c)) ==> flows(g, g1, none(), none()),
{
    reveal(low_cond);
    if let Ok((g1, c)) = low_cond(cx, g, e) {
        lemma_flush(low_expr(cx, g, e)->Ok_0.0, 0);
        lemma_expr_then(cx, g, e, g1);
    }
}

proof fn lemma_if(cx: Cx, g: Gen, s: StmtV)
    requires
        has_block(g.code, g.here),
        s is If,
    ensures
        low_if(cx, g, s) matches Ok(g1) ==> flows(g, g1, around(g), none()),
    decreases s, 0nat,
{
    if let StmtV::If { cond, then_block, else_block } = s {
        if let Ok(g9) = low_if(cx, g, s) {
            lemma_cond(cx, g, cond);
            let (g1, c) = low_cond(cx, g, cond)->Ok_0;
            lemma_opens_more(g, g1, around(g));
            let yes = label(g1, Mark::Then);
            let end = label(g1, Mark::EndIf);
            let no = if else_block is Some {
                label(g1, Mark::Else)
            } else {
                end
            };
            let branch = Ins::CondBr(c, yes, no);
            let ga = emit(g1, branch);
            let open = around(g).insert(end);
            lemma_straight_flows(ga, ga, open, none());
            lemma_step_begin(ga, ga, yes, open, none());
            let g2 = begin(ga, yes);
            lemma_block(cx, g2, then_block);
            let g3 = low_block(cx, g2, then_block)->Ok_0;
            assert(around(g2) == around(g));
            lemma_opens(g2, g3, around(g), open, none());
            let own1 = none().insert(yes);
            lemma_step(ga, g2, g3, open, own1);
            lemma_branch_on(g3, end, open);
            let g4 = branch_if_open(g3, end);
            lemma_step(ga, g3, g4, open, own1);
            lemma_block_stays(g2.code, g4.code, yes);
            match else_block {
                None => {
                    lemma_step_begin(ga, g4, end, open, own1);
                    lemma_block_stays(g4.code, g9.code, yes);
                    lemma_opens(ga, g9, open, around(g), own1.insert(end));
                    lemma_wraps(g1, ga, g9, branch, around(g), own1.insert(end));
                },
                Some(b) => {
                    lemma_step_begin(ga, g4, no, open, own1);
                    let own2 = own1.insert(no);
                    let g5 = begin(g4, no);
                    lemma_block(cx, g5, b);
                    let g6 = low_block(cx, g5, b)->Ok_0;
                    assert(around(g5) == around(g));
                    lemma_opens(g5, g6, around(g), open, none());
                    lemma_step(ga, g5, g6, open, own2);
                    lemma_branch_on(g6, end, open);
                    let g7 = branch_if_open(g6, end);
                    lemma_step(ga, g6, g7, open, own2);
                    lemma_block_stays(g5.code, g7.code, no);
                    lemma_step_begin(ga, g7, end, open, own2);
                    lemma_block_stays(g4.code, g9.code, yes);
                    lemma_block_stays(g7.code, g9.code, no);
                    lemma_opens(ga, g9, open, around(g), own2.insert(end));
                    lemma_wraps(g1, ga, g9, branch, around(g), own2.insert(end));
                },
            }
            lemma_then(g, g1, g9, around(g));
        }
    }
}

/// The body of a loop: what it names, but for the loop's own blocks, is named
/// around it.
proof fn lemma_body(cx: Cx, g: Gen, b: Seq<StmtV>, next: Label, end: Label, open: Set<Label>)
    requires
        has_block(g.code, g.here),
        around(g).subset_of(open),
        open.contains(next),
        open.contains(end),
    ensures
        low_body(cx, g, b, next, end) matches Ok(g1) ==> flows(g, g1, open, none()),
    decreases b, b.len() + 2,
{
    let g0 = Gen { loops: g.loops.push((next, end)), ..g };
    lemma_block(cx, g0, b);
    if let Ok(g1) = low_block(cx, g0, b) {
        assert forall|l: Label| #[trigger] around(g0).contains(l) implies open.contains(l) by {
            let k = choose|k: int|
                0 <= k < g0.loops.len() && ((#[trigger] g0.loops[k]).0 == l || g0.loops[k].1 == l);
            if k < g.loops.len() {
                assert(g.loops[k] == g0.loops[k]);
                assert(around(g).contains(l));
            }
        }
        lemma_opens(g0, g1, around(g0), open, none());
        let g2 = Gen { loops: g1.loops.drop_last(), ..g1 };
        assert(g2.loops =~= g.loops);
        lemma_same(g0, g1, g, g2, open, none());
        lemma_branch_on(g2, next, open);
        lemma_then(g, g2, branch_if_open(g2, next), open);
    }
}

proof fn lemma_while(cx: Cx, g: Gen, s: StmtV)
    requires
        has_block(g.code, g.here),
        s is While,
    ensures
        low_while(cx, g, s) matches Ok(g1) ==> flows(g, g1, around(g), none()),
    decreases s, 0nat,
{
    if let StmtV::While { cond, body } = s {
        if let Ok(g9) = low_while(cx, g, s) {
            let test = label(g, Mark::LoopCond);
            let inside = label(g, Mark::LoopBody);
            let end = label(g, Mark::LoopEnd);
            let open = around(g).insert(test).insert(inside).insert(end);
            let ga = emit(g, Ins::Br(test));
            lemma_straight_flows(ga, ga, open, none());
            lemma_step_begin(ga, ga, test, open, none());
            let g1 = begin(ga, test);
            let own1 = none().insert(test);
            lemma_cond(cx, g1, cond);
            let (g2, c) = low_cond(cx, g1, cond)->Ok_0;
            lemma_opens_more(g1, g2, open);
            lemma_step(ga, g1, g2, open, own1);
            let branch = Ins::CondBr(c, inside, end);
            lemma_branches(g2, branch, open);
            let g3 = emit(g2, branch);
            lemma_step(ga, g2, g3, open, own1);
            lemma_step_begin(ga, g3, inside, open, own1);
            let own2 = own1.insert(inside);
            let g4 = begin(g3, inside);
            assert(around(g4) == around(g));
            lemma_body(cx, g4, body, test, end, open);
            let g5 = low_body(cx, g4, body, test, end)->Ok_0;
            lemma_step(ga, g4, g5, open, own2);
            lemma_step_begin(ga, g5, end, open, own2);
            lemma_block_stays(g1.code, g9.code, test);
            lemma_block_stays(g4.code, g9.code, inside);
            lemma_opens(ga, g9, open, around(g), own2.insert(end));
            lemma_wraps(g, ga, g9, Ins::Br(test), around(g), own2.insert(end));
        }
    }
}

proof fn lemma_advance(g: Gen, slot: usize, test: Label, open: Set<Label>)
    requires
        open.contains(test),
    ensures
        flows(g, low_advance(g, slot, test), open, none()),
{
    reveal(low_advance);
    let load = Ins::Load(Ty::I64, Val::Reg(slot));
    let g1 = emit(g, load);
    let sum = Ins::Bin(Op::Add, Ty::I64, reg(g1), Val::Int(1));
    let g2 = emit(g1, sum);
    let store = Ins::Store(Ty::I64, reg(g2), Val::Reg(slot));
    let g3 = emit(g2, store);
    lemma_quiet(g, load);
    lemma_quiet(g1, sum);
    lemma_quiet(g2, store);
    lemma_straight_then(g, g1, g2);
    lemma_straight_then(g, g2, g3);
    lemma_straight_flows(g, g3, open, none());
    lemma_branches(g3, Ins::Br(test), open);
    lemma_then(g, g3, emit(g3, Ins::Br(test)), open);
}

proof fn lemma_for(cx: Cx, g: Gen, s: StmtV)
    requires
        has_block(g.code, g.here),
        s is For,
    ensures
        low_for(cx, g, s) matches Ok(g1) ==> flows(g, g1, around(g), none()),
    decreases s, 0nat,
{
    if let StmtV::For { var, start, end, body, line } = s {
        if let Ok(last) = low_for(cx, g, s) {
            lemma_expr(cx, g, start);
            let (g1, from) = low_expr(cx, g, start)->Ok_0;
            lemma_expr(cx, g1, end);
            let (g2, to) = low_expr(cx, g1, end)->Ok_0;
            lemma_then(g, g1, g2, none());
            lemma_flush(g2, 0);
            let before = push_scope(flush(g2, 0));
            assert(straight(g2, before));
            let slot = before.code.len() as usize;
            lemma_bind(before, var, Type::Int, from.0);
            let g3 = bind_var(before, var, Type::Int, from.0);
            lemma_straight_then(g2, before, g3);
            lemma_then_straight(g, g2, g3, none(), none());
            lemma_opens_more(g, g3, around(g));
            let test = label(g3, Mark::ForCond);
            let inside = label(g3, Mark::ForBody);
            let next = label(g3, Mark::ForInc);
            let out = label(g3, Mark::ForEnd);
            let open = around(g).insert(test).insert(inside).insert(next).insert(out);
            let ga = emit(g3, Ins::Br(test));
            lemma_straight_flows(ga, ga, open, none());
            lemma_step_begin(ga, ga, test, open, none());
            let own1 = none().insert(test);
            let g4 = begin(ga, test);
            let load = Ins::Load(Ty::I64, Val::Reg(slot));
            let g5 = emit(g4, load);
            let less = Ins::Cmp(Pred::Slt, Ty::I64, reg(g5), to.0);
            let g6 = emit(g5, less);
            lemma_quiet(g4, load);
            lemma_quiet(g5, less);
            lemma_straight_then(g4, g5, g6);
            lemma_then_straight(ga, g4, g6, open, own1);
            let branch = Ins::CondBr(reg(g6), inside, out);
            lemma_branches(g6, branch, open);
            let gc = emit(g6, branch);
            lemma_step(ga, g6, gc, open, own1);
            lemma_step_begin(ga, gc, inside, open, own1);
            let own2 = own1.insert(inside);
            let g7 = begin(gc, inside);
            assert(around(g7) == around(g));
            lemma_body(cx, g7, body, next, out, open);
            let g8 = low_body(cx, g7, body, next, out)->Ok_0;
            lemma_step(ga, g7, g8, open, own2);
            lemma_step_begin(ga, g8, next, open, own2);
            let own3 = own2.insert(next);
            let gn = begin(g8, next);
            lemma_advance(gn, slot, test, open);
            let g9 = low_advance(gn, slot, test);
            lemma_step(ga, gn, g9, open, own3);
            let gp = pop_scope(g9);
            lemma_same(ga, g9, ga, gp, open, own3);
            lemma_step_begin(ga, gp, out, open, own3);
            lemma_block_stays(g4.code, last.code, test);
            lemma_block_stays(g7.code, last.code, inside);
            lemma_block_stays(gn.code, last.code, next);
            lemma_opens(ga, last, open, around(g), own3.insert(out));
            lemma_wraps(g3, ga, last, Ins::Br(test), around(g), own3.insert(out));
            lemma_then(g, g3, last, around(g));
        }
    }
}

proof fn lemma_keep_alive(g: Gen, checkpoint: nat, v: Val)
    ensures
        straight(g, keep_alive(g, checkpoint, v).0),
{
    reveal(keep_alive);
    let fresh = g.temps.len() > 0 && g.temps.last() == v;
    let g1 = if fresh {
        consume(g, v)
    } else {
        g
    };
    lemma_flush(g1, checkpoint);
}

proof fn lemma_foreach_pieces(
    g: Gen,
    var: Seq<char>,
    elem: Type,
    arr: Val,
    at: usize,
    slot: usize,
    inside: Label,
    out: Label,
    open: Set<Label>,
)
    requires
        open.contains(inside),
        open.contains(out),
    ensures
        straight(g, foreach_slots(g, var, elem)),
        flows(g, foreach_test(g, arr, at, inside, out), open, none()),
        straight(g, foreach_take(g, arr, at, slot, elem)),
{
    reveal(foreach_slots);
    reveal(foreach_test);
    reveal(foreach_take);
    let i1 = Ins::Alloca(Ty::I64);
    let a1 = emit(g, i1);
    let i2 = Ins::Store(Ty::I64, Val::Int(0), reg(a1));
    let a2 = emit(a1, i2);
    let i3 = Ins::Alloca(ty_of(elem));
    let a3 = emit(a2, i3);
    lemma_quiet(g, i1);
    lemma_quiet(a1, i2);
    lemma_quiet(a2, i3);
    lemma_straight_then(g, a1, a2);
    lemma_straight_then(g, a2, a3);
    let load = Ins::Load(Ty::I64, Val::Reg(at));
    let h1 = emit(g, load);
    let size = Ins::Load(Ty::I64, arr);
    let h2 = emit(h1, size);
    let less = Ins::Cmp(Pred::Slt, Ty::I64, reg(h1), reg(h2));
    let h3 = emit(h2, less);
    lemma_quiet(g, load);
    lemma_quiet(h1, size);
    lemma_quiet(h2, less);
    lemma_straight_then(g, h1, h2);
    lemma_straight_then(g, h2, h3);
    lemma_straight_flows(g, h3, open, none());
    let branch = Ins::CondBr(reg(h3), inside, out);
    lemma_branches(h3, branch, open);
    lemma_then(g, h3, emit(h3, branch), open);
    let args = seq![(arr, Ty::Ptr), (reg(h1), Ty::I64)];
    lemma_call(h1, Ty::I64, Callee::Runtime(Rt::ArrGet), args);
    let k2 = call_rt(h1, Ty::I64, Rt::ArrGet, args);
    lemma_words(k2, reg(k2), elem);
    let (k3, v) = from_word(k2, reg(k2), elem);
    let store = Ins::Store(ty_of(elem), v, Val::Reg(slot));
    lemma_quiet(k3, store);
    lemma_straight_then(g, h1, k2);
    lemma_straight_then(g, k2, k3);
    lemma_straight_then(g, k3, emit(k3, store));
}

proof fn lemma_hold(g: Gen, var: Seq<char>, iterable: ExprV, arr: Val)
    ensures
        straight(g, low_hold(g, var, iterable, arr)),
{
    reveal(low_hold);
    lemma_bind(g, holder(var), iterable.ty->0, arr);
}

proof fn lemma_foreach(cx: Cx, g: Gen, s: StmtV)
    requires
        has_block(g.code, g.here),
        s is ForEach,
    ensures
        low_foreach(cx, g, s) matches Ok(g1) ==> flows(g, g1, around(g), none()),
    decreases s, 0nat,
{
    if let StmtV::ForEach { var, iterable, body, line } = s {
        if let Ok(last) = low_foreach(cx, g, s) {
            let elem = iterable.ty->0.elem()->0;
            let (g1, arr) = low_expr(cx, g, iterable)->Ok_0;
            lemma_keep_alive(g1, g.temps.len(), arr.0);
            let (g2, fresh) = keep_alive(g1, g.temps.len(), arr.0);
            let at = g2.code.len() as usize;
            let slot = (g2.code.len() + 2) as usize;
            let gs = foreach_slots(g2, var, elem);
            lemma_hold(gs, var, iterable, arr.0);
            let g3 = low_hold(gs, var, iterable, arr.0);
            let test = label(g3, Mark::ForeachCond);
            let inside = label(g3, Mark::ForeachBody);
            let next = label(g3, Mark::ForeachInc);
            let out = label(g3, Mark::ForeachEnd);
            let open = around(g).insert(test).insert(inside).insert(next).insert(out);
            lemma_foreach_pieces(g2, var, elem, arr.0, at, slot, inside, out, open);
            lemma_straight_then(g1, g2, gs);
            lemma_straight_then(g1, gs, g3);
            lemma_expr_then(cx, g, iterable, g3);
            lemma_opens_more(g, g3, around(g));
            let ga = emit(g3, Ins::Br(test));
            lemma_straight_flows(ga, ga, open, none());
            lemma_step_begin(ga, ga, test, open, none());
            let own1 = none().insert(test);
            let g4 = begin(ga, test);
            lemma_foreach_pieces(g4, var, elem, arr.0, at, slot, inside, out, open);
            let gt = foreach_test(g4, arr.0, at, inside, out);
            lemma_step(ga, g4, gt, open, own1);
            lemma_step_begin(ga, gt, inside, open, own1);
            let own2 = own1.insert(inside);
            let g5 = begin(gt, inside);
            lemma_foreach_pieces(g5, var, elem, arr.0, at, slot, inside, out, open);
            let g6 = foreach_take(g5, arr.0, at, slot, elem);
            lemma_then_straight(ga, g5, g6, open, own2);
            assert(around(g6) == around(g));
            lemma_block_stays(g5.code, g6.code, inside);
            lemma_body(cx, g6, body, next, out, open);
            let g7 = low_body(cx, g6, body, next, out)->Ok_0;
            lemma_step(ga, g6, g7, open, own2);
            lemma_step_begin(ga, g7, next, open, own2);
            let own3 = own2.insert(next);
            let gn = begin(g7, next);
            lemma_advance(gn, at, test, open);
            let g8 = low_advance(gn, at, test);
            lemma_step(ga, gn, g8, open, own3);
            let gp = pop_scope(g8);
            lemma_same(ga, g8, ga, gp, open, own3);
            lemma_step_begin(ga, gp, out, open, own3);
            let g9 = begin(gp, out);
            let own4 = own3.insert(out);
            lemma_block_stays(g4.code, g9.code, test);
            lemma_block_stays(g5.code, g9.code, inside);
            lemma_block_stays(gn.code, g9.code, next);
            lemma_opens(ga, g9, open, around(g), own4);
            lemma_wraps(g3, ga, g9, Ins::Br(test), around(g), own4);
            lemma_then(g, g3, g9, around(g));
            lemma_count(g9, arr.0);
            if owns_iterable(iterable) {
                lemma_then_straight(g, g9, last, around(g), none());
            }
        }
    }
}

// ----- matches -----------------------------------------------------------------------------------
proof fn lemma_payload(g: Gen, base: Val, names: Seq<Seq<char>>, types: Seq<Type>, n: nat)
    ensures
        straight(g, bind_payload(g, base, names, types, n)),
    decreases n,
{
    if n > 0 {
        let i = n - 1;
        lemma_payload(g, base, names, types, i as nat);
        let g1 = bind_payload(g, base, names, types, i as nat);
        let gep = Ins::Gep(Ty::I64, base, Val::Int(n as i64));
        let g2 = emit(g1, gep);
        let load = Ins::Load(ty_of(types[i]), reg(g2));
        let g3 = emit(g2, load);
        let v = reg(g3);
        lemma_quiet(g1, gep);
        lemma_quiet(g2, load);
        lemma_straight_then(g, g1, g2);
        lemma_straight_then(g, g2, g3);
        lemma_count(g3, v);
        let g4 = if types[i].heap() {
            retain(g3, v)
        } else {
            g3
        };
        if types[i].heap() {
            lemma_straight_then(g, g3, g4);
        }
        lemma_bind(g4, names[i], types[i], v);
        lemma_straight_then(g, g4, bind_var(g4, names[i], types[i], v));
    }
}

/// What arms may leave open.
spec fn open_end(g: Gen, end: Label, falls: bool) -> Set<Label> {
    if falls {
        around(g).insert(end)
    } else {
        around(g)
    }
}

proof fn lemma_arm(
    cx: Cx,
    g: Gen,
    def: EnumV,
    arm: ArmV,
    base: Val,
    tag: Val,
    fresh: bool,
    end: Label,
)
    requires
        has_block(g.code, g.here),
    ensures
        low_arm(cx, g, def, arm, base, tag, fresh, end) matches Ok((g1, falls)) ==> flows(
            g,
            g1,
            open_end(g, end, falls),
            none(),
        ),
    decreases arm, 0nat,
{
    if let Ok((last, falls)) = low_arm(cx, g, def, arm, base, tag, fresh, end) {
        reveal(arm_test);
        let (vid, bindings, types) = pattern_place(def, arm.pattern)->Ok_0;
        let (g1, next) = arm_test(g, tag, vid);
        let gs = match vid {
            None => g,
            Some(v) => emit(g, Ins::Cmp(Pred::Eq, Ty::I64, tag, Val::Int(v as i64))),
        };
        let here = label(gs, Mark::Arm);
        let branch = match vid {
            None => Ins::Br(here),
            Some(v) => Ins::CondBr(reg(gs), here, next),
        };
        assert(next == label(gs, Mark::NextArm));
        let ga = emit(gs, branch);
        assert(g1 == begin(ga, here));
        let open = open_end(g, end, falls);
        lemma_straight_flows(ga, ga, open, none());
        lemma_step_begin(ga, ga, here, open, none());
        let own1 = none().insert(here);
        let g2 = bind_payload(push_scope(g1), base, bindings, types, bindings.len());
        lemma_payload(push_scope(g1), base, bindings, types, bindings.len());
        assert(straight(g1, g2));
        lemma_count(g2, base);
        let g3 = if fresh {
            release(g2, base)
        } else {
            g2
        };
        if fresh {
            lemma_straight_then(g1, g2, g3);
        }
        lemma_then_straight(ga, g1, g3, open, own1);
        lemma_block_stays(g1.code, g3.code, here);
        lemma_block(cx, g3, arm.body);
        let g4 = low_block(cx, g3, arm.body)->Ok_0;
        assert(around(g3) == around(g));
        lemma_opens(g3, g4, around(g), open, none());
        lemma_step(ga, g3, g4, open, own1);
        let g5 = pop_scope(g4);
        lemma_same(ga, g4, ga, g5, open, own1);
        assert(falls == g4.open);
        let g6 = branch_if_open(g5, end);
        if falls {
            lemma_branch_on(g5, end, open);
        } else {
            lemma_straight_flows(g5, g6, open, none());
        }
        lemma_step(ga, g5, g6, open, own1);
        lemma_step_begin(ga, g6, next, open, own1);
        lemma_block_stays(g1.code, last.code, here);
        lemma_wraps(gs, ga, last, branch, open, own1.insert(next));
        if vid is Some {
            lemma_straight_flows(g, gs, open, none());
            lemma_then(g, gs, last, open);
        }
    }
}

proof fn lemma_arms(
    cx: Cx,
    g: Gen,
    def: EnumV,
    arms: Seq<ArmV>,
    i: int,
    base: Val,
    tag: Val,
    fresh: bool,
    end: Label,
    falls: bool,
)
    requires
        has_block(g.code, g.here),
        0 <= i,
    ensures
        low_arms(cx, g, def, arms, i, base, tag, fresh, end, falls) matches Ok((g1, f)) ==> flows(
            g,
            g1,
            open_end(g, end, f),
            none(),
        ) && (falls ==> f),
    decreases arms, arms.len() - i,
{
    if let Ok((last, f)) = low_arms(cx, g, def, arms, i, base, tag, fresh, end, falls) {
        if i < arms.len() {
            lemma_arm(cx, g, def, arms[i], base, tag, fresh, end);
            let (g1, open) = low_arm(cx, g, def, arms[i], base, tag, fresh, end)->Ok_0;
            lemma_arms(cx, g1, def, arms, i + 1, base, tag, fresh, end, falls || open);
            assert(around(g1) == around(g));
            lemma_opens(g, g1, open_end(g, end, open), open_end(g, end, f), none());
            lemma_then(g, g1, last, open_end(g, end, f));
        } else {
            lemma_straight_flows(g, g, open_end(g, end, f), none());
        }
    }
}

proof fn lemma_match(cx: Cx, g: Gen, s: StmtV)
    requires
        has_block(g.code, g.here),
        s is Match,
    ensures
        low_match(cx, g, s) matches Ok(g1) ==> flows(g, g1, around(g), none()),
    decreases s, 0nat,
{
    if let StmtV::Match { scrutinee, arms, line } = s {
        if let Ok(last) = low_match(cx, g, s) {
            let id = scrutinee.ty->0->Enum_0;
            let def = cx.enums[id as int];
            let (g1, base) = low_expr(cx, g, scrutinee)->Ok_0;
            lemma_keep_alive(g1, g.temps.len(), base.0);
            let (g2, fresh) = keep_alive(g1, g.temps.len(), base.0);
            lemma_expr_then(cx, g, scrutinee, g2);
            lemma_opens_more(g, g2, around(g));
            let end = label(g2, Mark::MatchEnd);
            let load = Ins::Load(Ty::I64, base.0);
            let ga = emit(g2, load);
            lemma_quiet(g2, load);
            lemma_straight_flows(g2, ga, none(), none());
            lemma_arms(cx, ga, def, arms, 0, base.0, reg(ga), fresh, end, false);
            let (g4, falls) = low_arms(
                cx,
                ga,
                def,
                arms,
                0,
                base.0,
                reg(ga),
                fresh,
                end,
                false,
            )->Ok_0;
            assert(around(ga) == around(g));
            let open = open_end(g, end, falls);
            let g5 = emit(g4, Ins::Unreachable);
            lemma_quiet(g4, Ins::Unreachable);
            lemma_then_straight(ga, g4, g5, open, none());
            if falls {
                lemma_step_begin(ga, g5, end, open, none());
                lemma_opens(ga, last, open, around(g), none().insert(end));
                lemma_wraps(g2, ga, last, load, around(g), none().insert(end));
            } else {
                lemma_wraps(g2, ga, last, load, around(g), none());
            }
            lemma_then(g, g2, last, around(g));
        }
    }
}

// ----- functions ---------------------------------------------------------------------------------
proof fn lemma_params(g: Gen, params: Seq<ParamV>, n: nat)
    ensures
        straight(g, bind_params(g, params, n)),
    decreases n,
{
    if n > 0 {
        let i = (n - 1) as nat;
        lemma_params(g, params, i);
        let g1 = bind_params(g, params, i);
        let p = params[n - 1];
        lemma_bind(g1, p.name, p.ty, Val::Param(i as usize));
        lemma_straight_then(g, g1, bind_var(g1, p.name, p.ty, Val::Param(i as usize)));
    }
}

/// Code that begins with the entry and flows from there is closed.
proof fn lemma_closes(g: Gen, g1: Gen)
    requires
        g.code == seq![Ins::Label(crate::lowering::entry())],
        g1.code.len() <= usize::MAX,
        flows(g, g1, none(), none()),
    ensures
        closed_flow(g1.code),
{
    let code = g1.code;
    assert(code[0] == g.code[0]);
    assert forall|i: int, l: Label| 0 <= i < code.len() && #[trigger] names(
        code[i],
        l,
    ) implies has_block(code, l) by {}
    assert forall|i: int, j: int|
        0 <= i < j < code.len() && (#[trigger] code[i]) is Label && (#[trigger] code[j]) is Label
        implies code[i] != code[j] by {
        if i == 0 {
            assert(code[j]->Label_0.at >= 1);
        }
    }
}

/// Every branch of a lowered function leads to a block of that function, and
/// no two of its blocks have the same label.
pub proof fn law_branches_stay_inside(
    cx: Cx,
    lits: Seq<Seq<char>>,
    floats: Seq<Seq<char>>,
    f: FunctionV,
)
    ensures
        low_function(cx, lits, floats, f) matches Ok(g) ==> g.code.len() <= usize::MAX
            ==> closed_flow(g.code),
{
    if let Ok(last) = low_function(cx, lits, floats, f) {
        let params = all_params(f);
        let g = at_entry(lits, floats);
        lemma_params(g, params, params.len());
        let g1 = bind_params(g, params, params.len());
        lemma_straight_flows(g, g1, none(), none());
        assert(has_block(g.code, g.here)) by {
            assert(g.code[0] == Ins::Label(g.here));
        }
        lemma_block(cx, g1, f.body);
        let g2 = low_block(cx, g1, f.body)->Ok_0;
        assert(around(g1) =~= none());
        lemma_then(g, g1, g2, none());
        if g2.open {
            lemma_quiet(g2, Ins::RetVoid);
            lemma_then_straight(g, g2, last, none(), none());
        }
        if last.code.len() <= usize::MAX {
            lemma_closes(g, last);
        }
    }
}

// ----- destructors and modules ------------------------------------------------------------------
proof fn lemma_drop_words(g: Gen, at: nat, types: Seq<Type>, n: nat)
    ensures
        straight(g, drop_words(g, at, types, n)),
    decreases n,
{
    if n > 0 {
        lemma_drop_words(g, at, types, (n - 1) as nat);
        let before = drop_words(g, at, types, (n - 1) as nat);
        if types[n - 1].heap() {
            let gep = Ins::Gep(Ty::I64, Val::Param(0), Val::Int((at + n - 1) as i64));
            let g1 = emit(before, gep);
            let load = Ins::Load(Ty::Ptr, reg(g1));
            let g2 = emit(g1, load);
            lemma_quiet(before, gep);
            lemma_quiet(g1, load);
            lemma_straight_then(g, before, g1);
            lemma_straight_then(g, g1, g2);
            lemma_count(g2, reg(g2));
            lemma_straight_then(g, g2, release(g2, reg(g2)));
        }
    }
}

proof fn lemma_drop_variants(g: Gen, def: EnumV, tag: Val, n: nat)
    ensures
        flows(g, drop_variants(g, def, tag, n), none(), none()),
    decreases n,
{
    if n == 0 {
        lemma_straight_flows(g, g, none(), none());
    } else {
        lemma_drop_variants(g, def, tag, (n - 1) as nat);
        let before = drop_variants(g, def, tag, (n - 1) as nat);
        let types = def.variants[n - 1].fields;
        if any_heap(types) {
            let test = Ins::Cmp(Pred::Eq, Ty::I64, tag, Val::Int((n - 1) as i64));
            let g1 = emit(before, test);
            lemma_quiet(before, test);
            lemma_then_straight(g, before, g1, none(), none());
            let here = label(g1, Mark::Variant);
            let next = label(g1, Mark::NextVariant);
            let branch = Ins::CondBr(reg(g1), here, next);
            let ga = emit(g1, branch);
            lemma_straight_flows(ga, ga, none(), none());
            lemma_step_begin(ga, ga, here, none(), none());
            let own1 = none().insert(here);
            let g2 = begin(ga, here);
            lemma_drop_words(g2, 1, types, types.len());
            let g3 = drop_words(g2, 1, types, types.len());
            lemma_quiet(g3, Ins::RetVoid);
            let g4 = emit(g3, Ins::RetVoid);
            lemma_straight_then(g2, g3, g4);
            lemma_then_straight(ga, g2, g4, none(), own1);
            lemma_step_begin(ga, g4, next, none(), own1);
            let last = begin(g4, next);
            lemma_block_stays(g2.code, last.code, here);
            lemma_wraps(g1, ga, last, branch, none(), own1.insert(next));
            lemma_then(g, g1, last, none());
        }
    }
}

/// The same holds of destructors.
pub proof fn law_destructors_stay_inside(s: StructV, e: EnumV)
    ensures
        drop_struct(s).len() <= usize::MAX ==> closed_flow(drop_struct(s)),
        drop_enum(e).len() <= usize::MAX ==> closed_flow(drop_enum(e)),
{
    let g = at_entry(Seq::empty(), Seq::empty());
    let types = crate::lowering::field_types(s);
    lemma_drop_words(g, 0, types, types.len());
    let g1 = drop_words(g, 0, types, types.len());
    lemma_quiet(g1, Ins::RetVoid);
    let g2 = emit(g1, Ins::RetVoid);
    lemma_straight_then(g, g1, g2);
    lemma_straight_flows(g, g2, none(), none());
    if drop_struct(s).len() <= usize::MAX {
        lemma_closes(g, g2);
    }
    let load = Ins::Load(Ty::I64, Val::Param(0));
    lemma_quiet(g, load);
    let h1 = emit(g, load);
    lemma_straight_flows(g, h1, none(), none());
    lemma_drop_variants(h1, e, reg(h1), e.variants.len());
    let h2 = drop_variants(h1, e, reg(h1), e.variants.len());
    lemma_then(g, h1, h2, none());
    lemma_quiet(h2, Ins::RetVoid);
    lemma_then_straight(g, h2, emit(h2, Ins::RetVoid), none(), none());
    if drop_enum(e).len() <= usize::MAX {
        lemma_closes(g, emit(h2, Ins::RetVoid));
    }
}

/// Code in which each label has one place is closed, where it names only such
/// labels.
proof fn lemma_placed(code: Seq<Ins>, place: spec_fn(Mark) -> int)
    requires
        forall|i: int|
            0 <= i < code.len() ==> ((#[trigger] code[i]) matches Ins::Label(l) ==> l.at == 0
                && place(l.mark) == i),
        forall|i: int, l: Label|
            0 <= i < code.len() && #[trigger] names(code[i], l) ==> 0 <= place(l.mark) < code.len()
                && code[place(l.mark)] == Ins::Label(l),
    ensures
        closed_flow(code),
{
    assert forall|i: int, l: Label| 0 <= i < code.len() && #[trigger] names(
        code[i],
        l,
    ) implies has_block(code, l) by {
        assert(code[place(l.mark)] == Ins::Label(l));
    }
}

proof fn lemma_retain_flow()
    ensures
        closed_flow(retain_code()),
{
    reveal(retain_code);
    let code = retain_code();
    let place = |m: Mark|
        match m {
            Mark::Entry => 0int,
            Mark::Check => 3int,
            Mark::Inc => 8int,
            Mark::Done => 12int,
            _ => 0int,
        };
    assert forall|i: int|
        0 <= i < code.len() implies ((#[trigger] code[i]) matches Ins::Label(l) ==> l.at == 0
            && place(l.mark) == i) by {}
    assert forall|i: int, l: Label|
        0 <= i < code.len() && #[trigger] names(code[i], l) implies 0 <= place(l.mark) < code.len()
        && code[place(l.mark)] == Ins::Label(l) by {}
    lemma_placed(code, place);
}

proof fn lemma_release_flow()
    ensures
        closed_flow(release_code()),
{
    reveal(release_code);
    let code = release_code();
    let place = |m: Mark|
        match m {
            Mark::Entry => 0int,
            Mark::Check => 3int,
            Mark::Dec => 8int,
            Mark::Dead => 12int,
            Mark::Owner => 17int,
            Mark::Drop => 20int,
            Mark::Arr => 25int,
            Mark::ElemLoop => 31int,
            Mark::ElemBody => 35int,
            Mark::FreeData => 43int,
            Mark::FreeBlock => 47int,
            Mark::Store => 51int,
            Mark::Done => 54int,
            _ => 0int,
        };
    assert forall|i: int|
        0 <= i < code.len() implies ((#[trigger] code[i]) matches Ins::Label(l) ==> l.at == 0
            && place(l.mark) == i) by {}
    assert forall|i: int, l: Label|
        0 <= i < code.len() && #[trigger] names(code[i], l) implies 0 <= place(l.mark) < code.len()
        && code[place(l.mark)] == Ins::Label(l) by {}
    lemma_placed(code, place);
}

proof fn lemma_str_dup_flow()
    ensures
        closed_flow(str_dup_code()),
{
    reveal(str_dup_code);
    let code = str_dup_code();
    let place = |m: Mark|
        match m {
            Mark::Entry => 0int,
            Mark::Null => 3int,
            Mark::Copy => 5int,
            _ => 0int,
        };
    assert forall|i: int|
        0 <= i < code.len() implies ((#[trigger] code[i]) matches Ins::Label(l) ==> l.at == 0
            && place(l.mark) == i) by {}
    assert forall|i: int, l: Label|
        0 <= i < code.len() && #[trigger] names(code[i], l) implies 0 <= place(l.mark) < code.len()
        && code[place(l.mark)] == Ins::Label(l) by {}
    lemma_placed(code, place);
}

proof fn lemma_arr_push_flow()
    ensures
        closed_flow(arr_push_code()),
{
    reveal(arr_push_code);
    let code = arr_push_code();
    let place = |m: Mark|
        match m {
            Mark::Entry => 0int,
            Mark::Grow => 6int,
            Mark::Store => 20int,
            Mark::Retain => 25int,
            Mark::Write => 30int,
            _ => 0int,
        };
    assert forall|i: int|
        0 <= i < code.len() implies ((#[trigger] code[i]) matches Ins::Label(l) ==> l.at == 0
            && place(l.mark) == i) by {}
    assert forall|i: int, l: Label|
        0 <= i < code.len() && #[trigger] names(code[i], l) implies 0 <= place(l.mark) < code.len()
        && code[place(l.mark)] == Ins::Label(l) by {}
    lemma_placed(code, place);
}

proof fn lemma_arr_get_flow()
    ensures
        closed_flow(arr_get_code()),
{
    reveal(arr_get_code);
    let code = arr_get_code();
    let place = |m: Mark|
        match m {
            Mark::Entry => 0int,
            Mark::Trap => 4int,
            Mark::Load => 9int,
            Mark::Retain => 18int,
            Mark::Done => 23int,
            _ => 0int,
        };
    assert forall|i: int|
        0 <= i < code.len() implies ((#[trigger] code[i]) matches Ins::Label(l) ==> l.at == 0
            && place(l.mark) == i) by {}
    assert forall|i: int, l: Label|
        0 <= i < code.len() && #[trigger] names(code[i], l) implies 0 <= place(l.mark) < code.len()
        && code[place(l.mark)] == Ins::Label(l) by {}
    lemma_placed(code, place);
}

proof fn lemma_arr_set_flow()
    ensures
        closed_flow(arr_set_code()),
{
    reveal(arr_set_code);
    let code = arr_set_code();
    let place = |m: Mark|
        match m {
            Mark::Entry => 0int,
            Mark::Trap => 4int,
            Mark::Check => 9int,
            Mark::Swap => 17int,
            Mark::Write => 26int,
            _ => 0int,
        };
    assert forall|i: int|
        0 <= i < code.len() implies ((#[trigger] code[i]) matches Ins::Label(l) ==> l.at == 0
            && place(l.mark) == i) by {}
    assert forall|i: int, l: Label|
        0 <= i < code.len() && #[trigger] names(code[i], l) implies 0 <= place(l.mark) < code.len()
        && code[place(l.mark)] == Ins::Label(l) by {}
    lemma_placed(code, place);
}

/// The same holds of the runtime.
pub proof fn law_runtime_stays_inside(rt: Rt)
    ensures
        closed_flow(rt_code(rt)),
{
    lemma_retain_flow();
    lemma_release_flow();
    lemma_str_dup_flow();
    lemma_arr_push_flow();
    lemma_arr_get_flow();
    lemma_arr_set_flow();
    reveal(alloc_str_code);
    reveal(str_concat_code);
    reveal(str_eq_code);
    reveal(int_to_str_code);
    reveal(float_to_str_code);
    reveal(arr_new_code);
    reveal(bounds_fail_code);
    reveal(new_code);
    let code = rt_code(rt);
    if !matches!(
        rt,
        Rt::Retain | Rt::Release | Rt::StrDup | Rt::ArrPush | Rt::ArrGet | Rt::ArrSet
    ) {
        assert forall|i: int, l: Label|
            0 <= i < code.len() && #[trigger] names(code[i], l) implies has_block(code, l) by {}
    }
}

/// Whether the control flow of all functions that fit into memory is closed.
pub open spec fn all_closed(fns: Seq<FnV>) -> bool {
    forall|i: int|
        0 <= i < fns.len() ==> ((#[trigger] fns[i]).code.len() <= usize::MAX ==> closed_flow(
            fns[i].code,
        ))
}

proof fn lemma_functions_closed(cx: Cx, fs: Seq<FunctionV>, n: nat)
    ensures
        low_functions(cx, fs, n) matches Ok((fns, lits, floats)) ==> all_closed(fns),
    decreases n,
{
    if n > 0 {
        lemma_functions_closed(cx, fs, (n - 1) as nat);
        if let Ok((fns, lits, floats)) = low_functions(cx, fs, (n - 1) as nat) {
            law_branches_stay_inside(cx, lits, floats, fs[n - 1]);
        }
    }
}

proof fn lemma_drops_closed(symbols: Seq<SymbolV>, structs: Seq<StructV>, enums: Seq<EnumV>, n: nat,
    k: nat)
    ensures
        all_closed(struct_drops(symbols, structs, n)),
        all_closed(enum_drops(symbols, enums, k)),
    decreases n + k,
{
    if n > 0 {
        lemma_drops_closed(symbols, structs, enums, (n - 1) as nat, k);
        law_destructors_stay_inside(structs[n - 1], enums[0]);
    } else if k > 0 {
        lemma_drops_closed(symbols, structs, enums, n, (k - 1) as nat);
        law_destructors_stay_inside(structs[0], enums[k - 1]);
    }
}

proof fn lemma_runtime_closed(symbols: Seq<SymbolV>, fns: Seq<FnV>, n: nat)
    requires
        all_closed(fns),
    ensures
        all_closed(with_runtime(symbols, fns, n)),
    decreases n,
{
    if n > 0 {
        lemma_runtime_closed(symbols, fns, (n - 1) as nat);
        law_runtime_stays_inside(rt_order()[n - 1]);
    }
}

/// Every branch in a module leads to a block of the function it stands in, and
/// no two blocks of a function have the same label.
pub proof fn law_modules_stay_inside(p: ProgramV)
    ensures
        lowered(p) matches Ok(m) ==> all_closed(m.functions),
{
    let cx = cx_of(p);
    lemma_functions_closed(cx, p.functions, p.functions.len());
    if let Ok((fns, lits, floats)) = low_functions(cx, p.functions, p.functions.len()) {
        lemma_drops_closed(cx.symbols, p.structs, p.enums, p.structs.len(), p.enums.len());
        let dropped = fns + struct_drops(cx.symbols, p.structs, p.structs.len()) + enum_drops(
            cx.symbols,
            p.enums,
            p.enums.len(),
        );
        assert(all_closed(dropped));
        if let Ok(all) = with_c_main(cx.symbols, dropped) {
            if let Some(i) = symbol_index(cx.symbols, "xia_main"@, 0) {
                let shim = c_main(cx.symbols[i], i as usize);
                assert(closed_flow(shim.code)) by {
                    let code = shim.code;
                    assert forall|k: int, l: Label|
                        0 <= k < code.len() && #[trigger] names(code[k], l) implies has_block(
                        code,
                        l,
                    ) by {}
                }
                assert(all_closed(dropped.push(shim)));
            }
            lemma_runtime_closed(cx.symbols, all, rt_order().len());
        }
    }
}

/// Lowering an expression appends to the code.
pub(crate) proof fn lemma_expr_extends(cx: Cx, g: Gen, e: ExprV)
    requires
        has_block(g.code, g.here),
    ensures
        low_expr(cx, g, e) matches Ok((g1, v)) ==> {
            &&& g.code.len() <= g1.code.len()
            &&& forall|i: int| 0 <= i < g.code.len() ==> (#[trigger] g1.code[i]) == g.code[i]
        },
{
    lemma_expr(cx, g, e);
}

/// Lowering the body of a loop appends to the code.
pub(crate) proof fn lemma_body_extends(cx: Cx, g: Gen, b: Seq<StmtV>, next: Label, end: Label)
    requires
        has_block(g.code, g.here),
    ensures
        low_body(cx, g, b, next, end) matches Ok(g1) ==> {
            &&& g.code.len() <= g1.code.len()
            &&& forall|i: int| 0 <= i < g.code.len() ==> (#[trigger] g1.code[i]) == g.code[i]
        },
{
    lemma_body(cx, g, b, next, end, around(g).insert(next).insert(end));
}

/// Lowering a block appends to the code.
pub(crate) proof fn lemma_block_extends(cx: Cx, g: Gen, b: Seq<StmtV>)
    requires
        has_block(g.code, g.here),
    ensures
        low_block(cx, g, b) matches Ok(g1) ==> {
            &&& g.code.len() <= g1.code.len()
            &&& forall|i: int| 0 <= i < g.code.len() ==> (#[trigger] g1.code[i]) == g.code[i]
        },
{
    lemma_block(cx, g, b);
}

/// Lowering a condition appends to the code.
pub(crate) proof fn lemma_cond_extends(cx: Cx, g: Gen, e: ExprV)
    requires
        has_block(g.code, g.here),
    ensures
        low_cond(cx, g, e) matches Ok((g1, c)) ==> {
            &&& g.code.len() <= g1.code.len()
            &&& forall|i: int| 0 <= i < g.code.len() ==> (#[trigger] g1.code[i]) == g.code[i]
        },
{
    lemma_cond(cx, g, e);
}

} // verus!
