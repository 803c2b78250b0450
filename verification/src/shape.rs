//! The shape of lowered code: every block ends once, in one branch, return or
//! `unreachable`, and the temporaries of a statement are gone behind it.
use vstd::prelude::*;
use crate::ast::{
    ArmV, BinOp, EnumV, ExprV, FunctionV, KindV, ParamV, ProgramV, StmtV, StructV, Type, UnOp,
};
use crate::counting::{holder, owns_iterable};
use crate::ir::{Callee, Ins, Label, Mark, Pred, Rt, Ty, Val};
use crate::lowering::{
    all_params, arm_test, at_entry, begin, bind_params, bind_payload, bind_var, bool_text,
    branch_if_open, c_main, call, call_rt, calls, code_calls, consume, consume_heap, cx_of,
    drop_enum, drop_struct, drop_variants, drop_words, emit, enum_drops, field_place, fill, flush,
    foreach_slots, foreach_take, foreach_test, from_word, is_call, keep_alive, label,
    lemma_release_keeps, literal, low_advance, low_arm, low_arms, low_array, low_assign, low_bare,
    low_binary, low_block, low_body, low_builtin, low_call, low_cond, low_count, low_elems,
    low_expr, low_exprs, low_field, low_field_assign, low_for, low_foreach, low_function,
    low_functions, low_hold, low_if, low_index, low_index_assign, low_jump, low_len, low_let,
    low_match, low_method, low_print, low_push, low_return, low_short_circuit, low_stmt, low_stmts,
    low_str, low_struct, low_symbol, low_unary, low_var, low_variant, low_while, lowered, new_block,
    pass, pattern_place, pop_scope, printf, push_scope, reg, release, retain, str_op, struct_drops,
    symbol_index, to_word, ty_of, with_c_main, with_runtime, with_temp, Cx, FnV, Gen, SymbolV,
    Value,
};
use crate::runtime::{rt_code, rt_name, rt_order};

verus! {

/// Whether a label stands at `i` exactly where a block ends before it.
pub open spec fn joint(code: Seq<Ins>, i: int) -> bool {
    code[i] is Label <==> code[i - 1].ends_block()
}

/// Whether some code is a sequence of blocks: it begins with a label, and a
/// label stands behind every end of a block and nowhere else.
pub open spec fn blocks(code: Seq<Ins>) -> bool {
    &&& code.len() > 0
    &&& code[0] is Label
    &&& forall|i: int| 0 < i < code.len() ==> #[trigger] joint(code, i)
}

/// Whether some code is a sequence of blocks that have all ended.
pub open spec fn finished(code: Seq<Ins>) -> bool {
    blocks(code) && code.last().ends_block()
}

/// Whether the state of lowering is in shape.
pub open spec fn shaped(g: Gen) -> bool {
    blocks(g.code) && g.open == !g.code.last().ends_block()
}

/// What an expression leaves: the block goes on, variables and loops are as
/// they were, and temporaries were at most added.
pub open spec fn goes_on(g: Gen, g1: Gen) -> bool {
    &&& shaped(g1)
    &&& g1.open
    &&& g1.vars == g.vars
    &&& g1.loops == g.loops
    &&& g.temps.len() <= g1.temps.len()
    &&& g1.temps.take(g.temps.len() as int) == g.temps
}

/// What a single step leaves: it touches the code alone.
pub open spec fn plain_step(g: Gen, g1: Gen) -> bool {
    &&& shaped(g1)
    &&& g1.open
    &&& g1 == (Gen { code: g1.code, here: g1.here, lits: g1.lits, floats: g1.floats, ..g })
}

/// A state in which instructions can be added.
pub open spec fn ready(g: Gen) -> bool {
    shaped(g) && g.open
}

// ----- single instructions ----------------------------------------------------------------
pub(crate) proof fn lemma_emit(g: Gen, i: Ins)
    requires
        ready(g),
        !(i is Label),
    ensures
        shaped(emit(g, i)),
        emit(g, i).open == !i.ends_block(),
        emit(g, i) == (Gen { code: emit(g, i).code, open: !i.ends_block(), ..g }),
{
    let code = emit(g, i).code;
    assert forall|k: int| 0 < k < code.len() implies #[trigger] joint(code, k) by {
        if k < g.code.len() {
            assert(joint(g.code, k));
            assert(code[k] == g.code[k]);
            assert(code[k - 1] == g.code[k - 1]);
        } else {
            assert(code[k - 1] == g.code.last());
        }
    }
    assert(code[0] == g.code[0]);
}

pub(crate) proof fn lemma_begin(g: Gen, l: Label)
    requires
        shaped(g),
        !g.open,
    ensures
        ready(begin(g, l)),
        begin(g, l) == (Gen { code: begin(g, l).code, here: l, open: true, ..g }),
{
    let code = begin(g, l).code;
    assert forall|k: int| 0 < k < code.len() implies #[trigger] joint(code, k) by {
        if k < g.code.len() {
            assert(joint(g.code, k));
            assert(code[k] == g.code[k]);
            assert(code[k - 1] == g.code[k - 1]);
        } else {
            assert(code[k - 1] == g.code.last());
        }
    }
    assert(code[0] == g.code[0]);
}

proof fn lemma_pass(g: Gen, args: Seq<Value>)
    requires
        ready(g),
    ensures
        plain_step(g, pass(g, args)),
    decreases args.len(),
{
    if args.len() > 0 {
        lemma_pass(g, args.drop_last());
        lemma_emit(pass(g, args.drop_last()), Ins::Arg(args.last().1, args.last().0));
    }
}

pub(crate) proof fn lemma_call(g: Gen, ret: Ty, callee: Callee, args: Seq<Value>)
    requires
        ready(g),
    ensures
        plain_step(g, call(g, ret, callee, args)),
{
    reveal(call);
    lemma_pass(g, args);
    lemma_emit(pass(g, args), Ins::Call(ret, callee, args.len() as usize));
}

proof fn lemma_take(g: Gen)
    ensures
        g.temps.take(g.temps.len() as int) == g.temps,
{
    assert(g.temps.take(g.temps.len() as int) =~= g.temps);
}

/// A plain step goes on.
proof fn lemma_plain_on(g: Gen, g1: Gen)
    requires
        plain_step(g, g1),
    ensures
        goes_on(g, g1),
{
    lemma_take(g);
}

proof fn lemma_on_trans(g: Gen, g1: Gen, g2: Gen)
    requires
        goes_on(g, g1),
        goes_on(g1, g2),
    ensures
        goes_on(g, g2),
{
    assert(g2.temps.take(g.temps.len() as int) =~= g.temps) by {
        assert forall|i: int| 0 <= i < g.temps.len() implies g2.temps[i] == g.temps[i] by {
            assert(g2.temps.take(g1.temps.len() as int)[i] == g2.temps[i]);
            assert(g1.temps.take(g.temps.len() as int)[i] == g1.temps[i]);
        }
    }
}

proof fn lemma_temp_on(g: Gen, g1: Gen, v: Val)
    requires
        goes_on(g, g1),
    ensures
        goes_on(g, with_temp(g1, v)),
{
    let g2 = with_temp(g1, v);
    assert(g2.temps.take(g.temps.len() as int) =~= g1.temps.take(g.temps.len() as int));
}

proof fn lemma_flush(g: Gen, from: nat)
    requires
        ready(g),
    ensures
        ({
            let g1 = flush(g, from);
            &&& ready(g1)
            &&& g1 == (Gen { code: g1.code, temps: g1.temps, ..g })
            &&& g1.temps == g.temps.take(if g.temps.len() <= from {
                g.temps.len() as int
            } else {
                from as int
            })
        }),
    decreases g.temps.len(),
{
    lemma_take(g);
    if g.temps.len() > from {
        let g0 = Gen { temps: g.temps.drop_last(), ..g };
        let g1 = release(g0, g.temps.last());
        lemma_release_keeps(g0, g.temps.last());
        lemma_call(g0, Ty::Void, Callee::Runtime(Rt::Release), seq![(g.temps.last(), Ty::Ptr)]);
        lemma_flush(g1, from);
        assert(g1.temps.take(from as int) =~= g.temps.take(from as int)) by {
            assert(g1.temps == g.temps.drop_last());
        }
        assert(g1.temps.take(g1.temps.len() as int) =~= g1.temps);
        if g1.temps.len() <= from {
            assert(g1.temps =~= g.temps.take(from as int));
        }
    }
}

/// A flush back to the temporaries of `g` goes on from `g`.
pub(crate) proof fn lemma_flush_on(g: Gen, g1: Gen)
    requires
        goes_on(g, g1),
    ensures
        goes_on(g, flush(g1, g.temps.len())),
        flush(g1, g.temps.len()).temps == g.temps,
{
    lemma_flush(g1, g.temps.len());
    let g2 = flush(g1, g.temps.len());
    assert(g2.temps =~= g.temps);
    lemma_take(g);
}

// ----- pieces of expressions -----------------------------------------------------------------
proof fn lemma_literal(g: Gen, s: Seq<char>)
    requires
        ready(g),
    ensures
        plain_step(g, literal(g, s).0),
{
}

proof fn lemma_words(g: Gen, v: Val, elem: Type)
    requires
        ready(g),
    ensures
        plain_step(g, to_word(g, v, elem).0),
        plain_step(g, from_word(g, v, elem).0),
{
    assert forall|c: crate::ir::Conv| plain_step(g, #[trigger] emit(g, Ins::Convert(c, v))) by {
        lemma_emit(g, Ins::Convert(c, v));
    }
}

proof fn lemma_var(g: Gen, name: Seq<char>)
    requires
        ready(g),
    ensures
        low_var(g, name) matches Ok((g1, v)) ==> plain_step(g, g1),
{
    reveal(low_var);
    if let Some((slot, ty)) = crate::lowering::find_var(g.vars, name) {
        lemma_emit(g, Ins::Load(ty_of(ty), Val::Reg(slot)));
    }
}

proof fn lemma_unary(g: Gen, op: UnOp, v: Value)
    requires
        ready(g),
    ensures
        low_unary(g, op, v) matches Ok((g1, w)) ==> plain_step(g, g1),
{
    reveal(low_unary);
    lemma_emit(g, Ins::Bin(crate::ir::Op::Sub, Ty::I64, Val::Int(0), v.0));
    lemma_emit(g, Ins::FNeg(v.0));
    lemma_emit(g, Ins::Bin(crate::ir::Op::Xor, Ty::I1, v.0, Val::Bool(true)));
}

proof fn lemma_str_op(g: Gen, op: BinOp, l: Val, r: Val)
    requires
        ready(g),
    ensures
        str_op(g, op, l, r) matches Ok((g1, w)) ==> goes_on(g, g1),
{
    reveal(str_op);
    let args = seq![(l, Ty::Ptr), (r, Ty::Ptr)];
    let g1 = call_rt(g, Ty::Ptr, Rt::StrConcat, args);
    lemma_call(g, Ty::Ptr, Callee::Runtime(Rt::StrConcat), args);
    lemma_plain_on(g, g1);
    lemma_temp_on(g, g1, reg(g1));
    let g2 = call_rt(g, Ty::I1, Rt::StrEq, args);
    lemma_call(g, Ty::I1, Callee::Runtime(Rt::StrEq), args);
    lemma_plain_on(g, g2);
    let i = Ins::Bin(crate::ir::Op::Xor, Ty::I1, reg(g2), Val::Bool(true));
    lemma_emit(g2, i);
    lemma_plain_on(g, emit(g2, i));
}

proof fn lemma_binary(g: Gen, op: BinOp, l: Value, r: Value)
    requires
        ready(g),
    ensures
        low_binary(g, op, l, r) matches Ok((g1, w)) ==> goes_on(g, g1),
{
    reveal(low_binary);
    if let Some((i, ty)) = crate::lowering::int_op(op, l.1, l.0, r.0) {
        lemma_emit(g, i);
        lemma_plain_on(g, emit(g, i));
    }
    if let Some((i, ty)) = crate::lowering::float_op(op, l.0, r.0) {
        lemma_emit(g, i);
        lemma_plain_on(g, emit(g, i));
    }
    lemma_str_op(g, op, l.0, r.0);
}

proof fn lemma_bool_text(g: Gen, v: Val)
    requires
        ready(g),
    ensures
        plain_step(g, bool_text(g, v).0),
{
    reveal(bool_text);
    let (g1, t) = literal(g, "true"@);
    let (g2, f) = literal(g1, "false"@);
    lemma_emit(g2, Ins::Select(v, Ty::Ptr, t, f));
}

proof fn lemma_printf(g: Gen, format: Seq<char>, v: Value)
    requires
        ready(g),
    ensures
        plain_step(g, printf(g, format, v)),
{
    reveal(printf);
    let (g1, f) = literal(g, format);
    lemma_call(g1, Ty::I32, Callee::C(crate::ir::Libc::Printf), seq![(f, Ty::Ptr), v]);
}

proof fn lemma_builtin(g: Gen, name: Seq<char>, v: Val, ty: Option<Type>)
    requires
        ready(g),
    ensures
        low_builtin(g, name, v, ty) matches Ok((g1, w)) ==> goes_on(g, g1),
{
    reveal(low_builtin);
    reveal(low_print);
    reveal(low_str);
    reveal(low_len);
    lemma_bool_text(g, v);
    let (gb, s) = bool_text(g, v);
    lemma_plain_on(g, gb);
    lemma_temp_on(g, gb, s);
    lemma_printf(g, "%lld\n"@, (v, Ty::I64));
    lemma_plain_on(g, printf(g, "%lld\n"@, (v, Ty::I64)));
    lemma_printf(g, "%g\n"@, (v, Ty::F64));
    lemma_plain_on(g, printf(g, "%g\n"@, (v, Ty::F64)));
    lemma_printf(g, "%s\n"@, (v, Ty::Ptr));
    lemma_plain_on(g, printf(g, "%s\n"@, (v, Ty::Ptr)));
    lemma_printf(gb, "%s\n"@, (s, Ty::Ptr));
    lemma_plain_on(g, printf(gb, "%s\n"@, (s, Ty::Ptr)));
    let g1 = call_rt(g, Ty::Ptr, Rt::IntToStr, seq![(v, Ty::I64)]);
    lemma_call(g, Ty::Ptr, Callee::Runtime(Rt::IntToStr), seq![(v, Ty::I64)]);
    lemma_plain_on(g, g1);
    lemma_temp_on(g, g1, reg(g1));
    let g2 = call_rt(g, Ty::Ptr, Rt::FloatToStr, seq![(v, Ty::F64)]);
    lemma_call(g, Ty::Ptr, Callee::Runtime(Rt::FloatToStr), seq![(v, Ty::F64)]);
    lemma_plain_on(g, g2);
    lemma_temp_on(g, g2, reg(g2));
    let g3 = call_rt(g, Ty::Ptr, Rt::StrDup, seq![(v, Ty::Ptr)]);
    lemma_call(g, Ty::Ptr, Callee::Runtime(Rt::StrDup), seq![(v, Ty::Ptr)]);
    lemma_plain_on(g, g3);
    lemma_temp_on(g, g3, reg(g3));
    let strlen = Callee::C(crate::ir::Libc::Strlen);
    lemma_call(g, Ty::I64, strlen, seq![(v, Ty::Ptr)]);
    lemma_plain_on(g, call(g, Ty::I64, strlen, seq![(v, Ty::Ptr)]));
    lemma_emit(g, Ins::Load(Ty::I64, v));
    lemma_plain_on(g, emit(g, Ins::Load(Ty::I64, v)));
}

proof fn lemma_push_elem(g: Gen, arr: Val, v: Val, elem: Type)
    requires
        ready(g),
    ensures
        plain_step(g, low_push(g, arr, v, elem)),
{
    reveal(low_push);
    lemma_words(g, v, elem);
    let (g1, w) = to_word(g, v, elem);
    lemma_call(
        g1,
        Ty::Void,
        Callee::Runtime(Rt::ArrPush),
        seq![(arr, Ty::Ptr), (w, Ty::I64)],
    );
}

proof fn lemma_symbol(cx: Cx, g: Gen, index: usize, args: Seq<Value>)
    requires
        ready(g),
    ensures
        goes_on(g, low_symbol(cx, g, index, args).0),
{
    reveal(low_symbol);
    let sym = cx.symbols[index as int];
    let g1 = call(g, ty_of(sym.ret), Callee::Symbol(index), args);
    lemma_call(g, ty_of(sym.ret), Callee::Symbol(index), args);
    lemma_plain_on(g, g1);
    lemma_temp_on(g, g1, reg(g1));
    let g2 = call_rt(g1, Ty::Ptr, Rt::StrDup, seq![(reg(g1), Ty::Ptr)]);
    lemma_call(g1, Ty::Ptr, Callee::Runtime(Rt::StrDup), seq![(reg(g1), Ty::Ptr)]);
    lemma_plain_on(g, g2);
    lemma_temp_on(g, g2, reg(g2));
}

pub(crate) proof fn lemma_retain(g: Gen, v: Val)
    requires
        ready(g),
    ensures
        plain_step(g, retain(g, v)),
        plain_step(g, release(g, v)),
{
    lemma_call(g, Ty::Void, Callee::Runtime(Rt::Retain), seq![(v, Ty::Ptr)]);
    lemma_call(g, Ty::Void, Callee::Runtime(Rt::Release), seq![(v, Ty::Ptr)]);
}

proof fn lemma_fill(g: Gen, block: Val, at: nat, types: Seq<Type>, vals: Seq<Value>)
    requires
        ready(g),
    ensures
        plain_step(g, fill(g, block, at, types, vals)),
    decreases vals.len(),
{
    if vals.len() > 0 {
        let i = vals.len() - 1;
        lemma_fill(g, block, at, types, vals.drop_last());
        let g1 = fill(g, block, at, types, vals.drop_last());
        lemma_retain(g1, vals[i].0);
        let g2 = if types[i].heap() {
            retain(g1, vals[i].0)
        } else {
            g1
        };
        let gep = Ins::Gep(Ty::I64, block, Val::Int((at + i) as i64));
        lemma_emit(g2, gep);
        let g3 = emit(g2, gep);
        lemma_emit(g3, Ins::Store(ty_of(types[i]), vals[i].0, reg(g3)));
    }
}

proof fn lemma_struct(cx: Cx, g: Gen, id: u32, vals: Seq<Value>)
    requires
        ready(g),
    ensures
        goes_on(g, low_struct(cx, g, id, vals).0),
{
    reveal(low_struct);
    let types = crate::lowering::field_types(cx.structs[id as int]);
    let kind = if crate::lowering::any_heap(types) {
        Val::DropStruct(id)
    } else {
        Val::Null
    };
    let words = Val::Int(vals.len() as i64);
    let g1 = new_block(g, kind, vals.len());
    lemma_call(g, Ty::Ptr, Callee::Runtime(Rt::New), seq![(kind, Ty::Ptr), (words, Ty::I64)]);
    lemma_fill(g1, reg(g1), 0, types, vals);
    let g2 = fill(g1, reg(g1), 0, types, vals);
    lemma_plain_on(g, g2);
    lemma_temp_on(g, g2, reg(g1));
}

proof fn lemma_variant(cx: Cx, g: Gen, eid: u32, vid: u32, vals: Seq<Value>)
    requires
        ready(g),
    ensures
        goes_on(g, low_variant(cx, g, eid, vid, vals).0),
{
    reveal(low_variant);
    let def = cx.enums[eid as int];
    let types = def.variants[vid as int].fields;
    let kind = if crate::lowering::enum_owns(def) {
        Val::DropEnum(eid)
    } else {
        Val::Null
    };
    let words = Val::Int((vals.len() + 1) as i64);
    let g1 = new_block(g, kind, vals.len() + 1);
    lemma_call(g, Ty::Ptr, Callee::Runtime(Rt::New), seq![(kind, Ty::Ptr), (words, Ty::I64)]);
    let store = Ins::Store(Ty::I64, Val::Int(vid as i64), reg(g1));
    lemma_emit(g1, store);
    let g2 = emit(g1, store);
    lemma_fill(g2, reg(g1), 1, types, vals);
    let g3 = fill(g2, reg(g1), 1, types, vals);
    lemma_plain_on(g, g3);
    lemma_temp_on(g, g3, reg(g1));
}

proof fn lemma_field(g: Gen, base: Val, index: int, ty: Type)
    requires
        ready(g),
    ensures
        goes_on(g, low_field(g, base, index, ty).0),
{
    reveal(low_field);
    let gep = Ins::Gep(Ty::I64, base, Val::Int(index as i64));
    lemma_emit(g, gep);
    let g1 = emit(g, gep);
    let load = Ins::Load(ty_of(ty), reg(g1));
    lemma_emit(g1, load);
    let g2 = emit(g1, load);
    lemma_plain_on(g, g2);
    lemma_retain(g2, reg(g2));
    lemma_plain_on(g, retain(g2, reg(g2)));
    lemma_temp_on(g, retain(g2, reg(g2)), reg(g2));
}

proof fn lemma_index(g: Gen, arr: Val, index: Val, elem: Type)
    requires
        ready(g),
    ensures
        goes_on(g, low_index(g, arr, index, elem).0),
{
    reveal(low_index);
    let args = seq![(arr, Ty::Ptr), (index, Ty::I64)];
    let g1 = call_rt(g, Ty::I64, Rt::ArrGet, args);
    lemma_call(g, Ty::I64, Callee::Runtime(Rt::ArrGet), args);
    lemma_words(g1, reg(g1), elem);
    let (g2, v) = from_word(g1, reg(g1), elem);
    lemma_plain_on(g, g2);
    lemma_temp_on(g, g2, v);
}

// ----- expressions -----------------------------------------------------------------------------
pub(crate) proof fn lemma_expr(cx: Cx, g: Gen, e: ExprV)
    requires
        ready(g),
    ensures
        low_expr(cx, g, e) matches Ok((g1, v)) ==> goes_on(g, g1),
    decreases e, 2nat,
{
    lemma_take(g);
    match e.kind {
        KindV::Str(s) => {
            lemma_literal(g, s);
        },
        KindV::Var(name) => {
            lemma_var(g, name);
            if let Ok((g1, v)) = low_var(g, name) {
                lemma_plain_on(g, g1);
            }
        },
        KindV::Unary(op, a) => {
            lemma_expr(cx, g, *a);
            if let Ok((g1, v)) = low_expr(cx, g, *a) {
                lemma_unary(g1, op, v);
                if let Ok((g2, w)) = low_unary(g1, op, v) {
                    lemma_plain_on(g1, g2);
                    lemma_on_trans(g, g1, g2);
                }
            }
        },
        KindV::Binary(a, op, b) => {
            if op == BinOp::And || op == BinOp::Or {
                lemma_short_circuit(cx, g, e);
            } else {
                lemma_expr(cx, g, *a);
                if let Ok((g1, l)) = low_expr(cx, g, *a) {
                    lemma_expr(cx, g1, *b);
                    if let Ok((g2, r)) = low_expr(cx, g1, *b) {
                        lemma_on_trans(g, g1, g2);
                        lemma_binary(g2, op, l, r);
                        if let Ok((g3, w)) = low_binary(g2, op, l, r) {
                            lemma_on_trans(g, g2, g3);
                        }
                    }
                }
            }
        },
        KindV::Call(name, args) => {
            lemma_call_expr(cx, g, name, args, e.span.line);
        },
        KindV::MethodCall(recv, name, args) => {
            lemma_method(cx, g, e);
        },
        KindV::ArrayLit(es) => {
            lemma_array(cx, g, es, e.ty);
        },
        KindV::Index(a, b) => {
            lemma_expr(cx, g, *a);
            if let Ok((g1, arr)) = low_expr(cx, g, *a) {
                lemma_expr(cx, g1, *b);
                if let Ok((g2, i)) = low_expr(cx, g1, *b) {
                    lemma_on_trans(g, g1, g2);
                    if let Some(ty) = a.ty {
                        if let Some(elem) = ty.elem() {
                            lemma_index(g2, arr.0, i.0, elem);
                            lemma_on_trans(g, g2, low_index(g2, arr.0, i.0, elem).0);
                        }
                    }
                }
            }
        },
        KindV::Field(a, name) => {
            lemma_expr(cx, g, *a);
            if let Ok((g1, base)) = low_expr(cx, g, *a) {
                if let Some((index, ty)) = field_place(cx, a.ty, name) {
                    lemma_field(g1, base.0, index, ty);
                    lemma_on_trans(g, g1, low_field(g1, base.0, index, ty).0);
                }
            }
        },
        KindV::EnumInit(eid, vid, args) => {
            lemma_exprs(cx, g, args, args.len());
            if let Ok((g1, vals)) = low_exprs(cx, g, args, args.len()) {
                lemma_variant(cx, g1, eid, vid, vals);
                lemma_on_trans(g, g1, low_variant(cx, g1, eid, vid, vals).0);
            }
        },
        _ => {},
    }
}

pub(crate) proof fn lemma_exprs(cx: Cx, g: Gen, es: Seq<ExprV>, n: nat)
    requires
        ready(g),
    ensures
        low_exprs(cx, g, es, n) matches Ok((g1, vals)) ==> goes_on(g, g1) && (n <= es.len()
            ==> vals.len() == n),
    decreases es, n,
{
    lemma_take(g);
    if 0 < n <= es.len() {
        lemma_exprs(cx, g, es, (n - 1) as nat);
        if let Ok((g1, vals)) = low_exprs(cx, g, es, (n - 1) as nat) {
            lemma_expr(cx, g1, es[n - 1]);
            if let Ok((g2, v)) = low_expr(cx, g1, es[n - 1]) {
                lemma_on_trans(g, g1, g2);
            }
        }
    }
}

proof fn lemma_short_circuit(cx: Cx, g: Gen, e: ExprV)
    requires
        ready(g),
    ensures
        low_short_circuit(cx, g, e) matches Ok((g1, v)) ==> goes_on(g, g1),
    decreases e, 1nat,
{
    if let KindV::Binary(a, op, b) = e.kind {
        lemma_expr(cx, g, *a);
        if let Ok((g1, l)) = low_expr(cx, g, *a) {
            lemma_flush_on(g, g1);
            let g2 = flush(g1, g.temps.len());
            let rhs = label(g2, Mark::ScRhs);
            let end = label(g2, Mark::ScEnd);
            let branch = if op == BinOp::And {
                Ins::CondBr(l.0, rhs, end)
            } else {
                Ins::CondBr(l.0, end, rhs)
            };
            lemma_emit(g2, branch);
            let g3 = emit(g2, branch);
            lemma_begin(g3, rhs);
            let g4 = begin(g3, rhs);
            assert(goes_on(g, g4));
            lemma_expr(cx, g4, *b);
            if let Ok((g5, r)) = low_expr(cx, g4, *b) {
                lemma_on_trans(g, g4, g5);
                lemma_flush_on(g, g5);
                let g6 = flush(g5, g.temps.len());
                lemma_emit(g6, Ins::Br(end));
                let g7 = emit(g6, Ins::Br(end));
                lemma_begin(g7, end);
                let g8 = begin(g7, end);
                let phi = Ins::Phi(Ty::I1, Val::Bool(op == BinOp::Or), g2.here, r.0, g6.here);
                lemma_emit(g8, phi);
            }
        }
    }
}

pub(crate) proof fn lemma_call_expr(cx: Cx, g: Gen, name: Seq<char>, args: Seq<ExprV>, line: usize)
    requires
        ready(g),
    ensures
        low_call(cx, g, name, args, line) matches Ok((g1, v)) ==> goes_on(g, g1),
    decreases args, args.len() + 2,
{
    if crate::lowering::one_argument(name) {
        if args.len() == 1 {
            lemma_expr(cx, g, args[0]);
            if let Ok((g1, v)) = low_expr(cx, g, args[0]) {
                lemma_builtin(g1, name, v.0, args[0].ty);
                if let Ok((g2, w)) = low_builtin(g1, name, v.0, args[0].ty) {
                    lemma_on_trans(g, g1, g2);
                }
            }
        }
    } else if name == "push"@ {
        if args.len() == 2 {
            lemma_expr(cx, g, args[0]);
            if let Ok((g1, arr)) = low_expr(cx, g, args[0]) {
                lemma_expr(cx, g1, args[1]);
                if let Ok((g2, v)) = low_expr(cx, g1, args[1]) {
                    lemma_on_trans(g, g1, g2);
                    if let Some(ty) = args[0].ty {
                        if let Some(elem) = ty.elem() {
                            lemma_push_elem(g2, arr.0, v.0, elem);
                            let g3 = low_push(g2, arr.0, v.0, elem);
                            lemma_plain_on(g2, g3);
                            lemma_on_trans(g, g2, g3);
                        }
                    }
                }
            }
        }
    } else {
        lemma_exprs(cx, g, args, args.len());
        if let Ok((g1, vals)) = low_exprs(cx, g, args, args.len()) {
            if cx.struct_ids.contains_key(name) {
                lemma_struct(cx, g1, cx.struct_ids[name], vals);
                lemma_on_trans(g, g1, low_struct(cx, g1, cx.struct_ids[name], vals).0);
            } else if cx.callees.contains_key(name) {
                lemma_symbol(cx, g1, cx.callees[name], vals);
                lemma_on_trans(g, g1, low_symbol(cx, g1, cx.callees[name], vals).0);
            }
        }
    }
}

pub(crate) proof fn lemma_method(cx: Cx, g: Gen, e: ExprV)
    requires
        ready(g),
    ensures
        low_method(cx, g, e) matches Ok((g1, v)) ==> goes_on(g, g1),
    decreases e, 1nat,
{
    if let KindV::MethodCall(recv, name, args) = e.kind {
        if let Some(index) = crate::lowering::method_place(cx, recv.ty, name) {
            lemma_expr(cx, g, *recv);
            if let Ok((g1, base)) = low_expr(cx, g, *recv) {
                lemma_exprs(cx, g1, args, args.len());
                if let Ok((g2, vals)) = low_exprs(cx, g1, args, args.len()) {
                    lemma_on_trans(g, g1, g2);
                    lemma_symbol(cx, g2, index, seq![base] + vals);
                    lemma_on_trans(g, g2, low_symbol(cx, g2, index, seq![base] + vals).0);
                }
            }
        }
    }
}

proof fn lemma_array(cx: Cx, g: Gen, es: Seq<ExprV>, ty: Option<Type>)
    requires
        ready(g),
    ensures
        low_array(cx, g, es, ty) matches Ok((g1, v)) ==> goes_on(g, g1),
    decreases es, es.len() + 2,
{
    if let Some(t) = ty {
        if let Some(elem) = t.elem() {
            let args = seq![
                (Val::Int(crate::lowering::array_kind(elem)), Ty::I64),
                (Val::Int(crate::lowering::array_room(es.len())), Ty::I64),
            ];
            let g1 = call_rt(g, Ty::Ptr, Rt::ArrNew, args);
            lemma_call(g, Ty::Ptr, Callee::Runtime(Rt::ArrNew), args);
            lemma_plain_on(g, g1);
            lemma_elems(cx, g1, reg(g1), elem, es, es.len());
            if let Ok(g2) = low_elems(cx, g1, reg(g1), elem, es, es.len()) {
                lemma_on_trans(g, g1, g2);
                lemma_temp_on(g, g2, reg(g1));
            }
        }
    }
}

pub(crate) proof fn lemma_elems(cx: Cx, g: Gen, arr: Val, elem: Type, es: Seq<ExprV>, n: nat)
    requires
        ready(g),
    ensures
        low_elems(cx, g, arr, elem, es, n) matches Ok(g1) ==> goes_on(g, g1),
    decreases es, n,
{
    lemma_take(g);
    if 0 < n <= es.len() {
        lemma_elems(cx, g, arr, elem, es, (n - 1) as nat);
        if let Ok(g1) = low_elems(cx, g, arr, elem, es, (n - 1) as nat) {
            lemma_expr(cx, g1, es[n - 1]);
            if let Ok((g2, v)) = low_expr(cx, g1, es[n - 1]) {
                lemma_on_trans(g, g1, g2);
                lemma_push_elem(g2, arr, v.0, elem);
                let g3 = low_push(g2, arr, v.0, elem);
                lemma_plain_on(g2, g3);
                lemma_on_trans(g, g2, g3);
            }
        }
    }
}

// ----- statements ------------------------------------------------------------------------------
/// What a statement leaves: loops are as they were, and so are the variables
/// but for those of the innermost scope; there are no temporaries.
pub open spec fn settles(g: Gen, g1: Gen) -> bool {
    &&& shaped(g1)
    &&& g1.vars.len() == g.vars.len()
    &&& g1.vars.drop_last() == g.vars.drop_last()
    &&& g1.loops == g.loops
    &&& g1.temps.len() == 0
}

/// The start of a statement: no temporaries are pending.
pub open spec fn fresh_start(g: Gen) -> bool {
    ready(g) && g.vars.len() > 0 && g.temps.len() == 0
}

pub(crate) proof fn lemma_bind_var(g: Gen, name: Seq<char>, ty: Type, v: Val)
    requires
        ready(g),
        g.vars.len() > 0,
    ensures
        ready(bind_var(g, name, ty, v)),
        bind_var(g, name, ty, v).vars.len() == g.vars.len(),
        bind_var(g, name, ty, v).vars.drop_last() == g.vars.drop_last(),
        bind_var(g, name, ty, v).loops == g.loops,
        bind_var(g, name, ty, v).temps == g.temps,
{
    let g1 = emit(g, Ins::Alloca(ty_of(ty)));
    lemma_emit(g, Ins::Alloca(ty_of(ty)));
    let slot = (g1.code.len() - 1) as usize;
    lemma_emit(g1, Ins::Store(ty_of(ty), v, Val::Reg(slot)));
    assert(bind_var(g, name, ty, v).vars.drop_last() =~= g.vars.drop_last());
}

/// A scope that was opened is the one to be closed.
pub(crate) proof fn lemma_push_pop(g: Gen)
    ensures
        push_scope(g).vars.drop_last() == g.vars,
{
    assert(push_scope(g).vars.drop_last() =~= g.vars);
}

/// A flush of everything leaves no temporaries.
pub(crate) proof fn lemma_flush_all(g: Gen)
    requires
        ready(g),
    ensures
        ready(flush(g, 0)),
        flush(g, 0).vars == g.vars,
        flush(g, 0).loops == g.loops,
        flush(g, 0).temps.len() == 0,
{
    lemma_flush(g, 0);
}

pub(crate) proof fn lemma_simple(cx: Cx, g: Gen, s: StmtV)
    requires
        fresh_start(g),
        s is Let || s is Assign || s is IndexAssign || s is FieldAssign || s is Expr
            || s is Return || s is Break || s is Continue || s is Retain || s is Release,
    ensures
        low_stmt(cx, g, s) matches Ok(g1) ==> settles(g, g1) && (s is Assign || s is IndexAssign
            || s is FieldAssign ==> g1.vars == g.vars && g1.open),
{
    match s {
        StmtV::Let { name, ty, value, line } => {
            reveal(low_let);
            lemma_expr(cx, g, value);
            if let Ok((g1, v)) = low_expr(cx, g, value) {
                if let Some(t) = ty {
                    lemma_bind_var(g1, name, t, v.0);
                    let g2 = bind_var(g1, name, t, v.0);
                    lemma_flush_all(consume_heap(g2, v.0, ty));
                }
            }
        },
        StmtV::Assign { name, value, line } => {
            lemma_assign(cx, g, name, value);
        },
        StmtV::IndexAssign { target, index, value, line } => {
            reveal(low_index_assign);
            lemma_expr(cx, g, target);
            if let Ok((g1, arr)) = low_expr(cx, g, target) {
                lemma_expr(cx, g1, index);
                if let Ok((g2, i)) = low_expr(cx, g1, index) {
                    lemma_expr(cx, g2, value);
                    if let Ok((g3, v)) = low_expr(cx, g2, value) {
                        if let Some(ty) = target.ty {
                            if let Some(elem) = ty.elem() {
                                lemma_words(g3, v.0, elem);
                                let (g4, w) = to_word(g3, v.0, elem);
                                let args = seq![(arr.0, Ty::Ptr), (i.0, Ty::I64), (w, Ty::I64)];
                                lemma_call(g4, Ty::Void, Callee::Runtime(Rt::ArrSet), args);
                                lemma_flush_all(call_rt(g4, Ty::Void, Rt::ArrSet, args));
                            }
                        }
                    }
                }
            }
        },
        StmtV::FieldAssign { target, field, value, line } => {
            lemma_field_assign(cx, g, target, field, value);
        },
        StmtV::Expr(e) => {
            reveal(low_bare);
            lemma_expr(cx, g, e);
            if let Ok((g1, v)) = low_expr(cx, g, e) {
                lemma_flush_all(g1);
            }
            if let KindV::Call(name, args) = e.kind {
                lemma_call_expr(cx, g, name, args, e.span.line);
                if let Ok((g1, v)) = low_call(cx, g, name, args, e.span.line) {
                    lemma_flush_all(g1);
                }
            } else if e.kind is MethodCall {
                lemma_method(cx, g, e);
                if let Ok((g1, v)) = low_method(cx, g, e) {
                    lemma_flush_all(g1);
                }
            }
        },
        StmtV::Return { value, line } => {
            reveal(low_return);
            match value {
                None => {
                    lemma_flush_all(g);
                    lemma_emit(flush(g, 0), Ins::RetVoid);
                },
                Some(e) => {
                    lemma_expr(cx, g, e);
                    if let Ok((g1, v)) = low_expr(cx, g, e) {
                        let g2 = consume_heap(g1, v.0, e.ty);
                        lemma_flush_all(g2);
                        lemma_emit(flush(g2, 0), Ins::Ret(v.1, v.0));
                    }
                },
            }
        },
        StmtV::Break { line } => {
            reveal(low_jump);
            if g.loops.len() > 0 {
                lemma_emit(g, Ins::Br(g.loops.last().1));
            }
        },
        StmtV::Continue { line } => {
            reveal(low_jump);
            if g.loops.len() > 0 {
                lemma_emit(g, Ins::Br(g.loops.last().0));
            }
        },
        StmtV::Retain(name) => {
            lemma_count(g, name);
        },
        StmtV::Release(name) => {
            lemma_count(g, name);
        },
        _ => {},
    }
}

proof fn lemma_assign(cx: Cx, g: Gen, name: Seq<char>, value: ExprV)
    requires
        fresh_start(g),
    ensures
        low_assign(cx, g, name, value) matches Ok(g1) ==> settles(g, g1) && g1.vars == g.vars
            && g1.open,
{
    reveal(low_assign);
    lemma_expr(cx, g, value);
    if let Some((slot, ty)) = crate::lowering::find_var(g.vars, name) {
        if let Ok((g1, v)) = low_expr(cx, g, value) {
            let t = ty_of(ty);
            lemma_retain(g1, v.0);
            let g2 = if value.kind is Var {
                retain(g1, v.0)
            } else {
                g1
            };
            let load = Ins::Load(t, Val::Reg(slot));
            let store = Ins::Store(t, v.0, Val::Reg(slot));
            lemma_emit(g2, load);
            let g3 = emit(g2, load);
            lemma_emit(g3, store);
            let g4 = emit(g3, store);
            lemma_retain(g4, reg(g3));
            lemma_flush_all(consume(release(g4, reg(g3)), v.0));
            lemma_emit(g1, store);
            lemma_flush_all(emit(g1, store));
        }
    }
}

proof fn lemma_field_assign(cx: Cx, g: Gen, target: ExprV, field: Seq<char>, value: ExprV)
    requires
        fresh_start(g),
    ensures
        low_field_assign(cx, g, target, field, value) matches Ok(g1) ==> settles(g, g1) && g1.vars
            == g.vars && g1.open,
{
    reveal(low_field_assign);
    lemma_expr(cx, g, target);
    if let Some((index, ty)) = field_place(cx, target.ty, field) {
        if let Ok((g1, base)) = low_expr(cx, g, target) {
            lemma_expr(cx, g1, value);
            if let Ok((g2, v)) = low_expr(cx, g1, value) {
                let gep = Ins::Gep(Ty::I64, base.0, Val::Int(index as i64));
                lemma_emit(g2, gep);
                let g3 = emit(g2, gep);
                let slot = reg(g3);
                lemma_retain(g3, v.0);
                let g4 = retain(g3, v.0);
                lemma_emit(g4, Ins::Load(Ty::Ptr, slot));
                let g5 = emit(g4, Ins::Load(Ty::Ptr, slot));
                lemma_emit(g5, Ins::Store(Ty::Ptr, v.0, slot));
                let g6 = emit(g5, Ins::Store(Ty::Ptr, v.0, slot));
                lemma_retain(g6, reg(g5));
                lemma_flush_all(release(g6, reg(g5)));
                let store = Ins::Store(ty_of(ty), v.0, slot);
                lemma_emit(g3, store);
                lemma_flush_all(emit(g3, store));
            }
        }
    }
}

proof fn lemma_count(g: Gen, name: Seq<char>)
    requires
        fresh_start(g),
    ensures
        low_count(g, name, true) matches Ok(g1) ==> settles(g, g1),
        low_count(g, name, false) matches Ok(g1) ==> settles(g, g1),
{
    reveal(low_count);
    let found = crate::lowering::find_hidden(
        g.vars,
        crate::naming::bare(name),
        crate::naming::primes(name),
    );
    if let Some((slot, ty)) = found {
        let load = Ins::Load(ty_of(ty), Val::Reg(slot));
        lemma_emit(g, load);
        let g1 = emit(g, load);
        lemma_retain(g1, reg(g1));
    }
}

/// A statement leaves the code in shape and no temporaries behind.
pub(crate) proof fn lemma_stmt(cx: Cx, g: Gen, s: StmtV)
    requires
        fresh_start(g),
    ensures
        low_stmt(cx, g, s) matches Ok(g1) ==> settles(g, g1),
    decreases s, 2nat,
{
    match s {
        StmtV::If { .. } => {
            lemma_if(cx, g, s);
        },
        StmtV::While { .. } => {
            lemma_while(cx, g, s);
        },
        StmtV::For { .. } => {
            lemma_for(cx, g, s);
        },
        StmtV::ForEach { .. } => {
            lemma_foreach(cx, g, s);
        },
        StmtV::Match { .. } => {
            lemma_match(cx, g, s);
        },
        _ => {
            lemma_simple(cx, g, s);
        },
    }
}

pub(crate) proof fn lemma_block(cx: Cx, g: Gen, b: Seq<StmtV>)
    requires
        fresh_start(g),
    ensures
        low_block(cx, g, b) matches Ok(g1) ==> settles(g, g1) && g1.vars == g.vars,
    decreases b, b.len() + 1,
{
    lemma_stmts(cx, push_scope(g), b, 0);
    lemma_push_pop(g);
}

pub(crate) proof fn lemma_stmts(cx: Cx, g: Gen, b: Seq<StmtV>, i: int)
    requires
        shaped(g),
        g.vars.len() > 0,
        g.temps.len() == 0,
        0 <= i,
    ensures
        low_stmts(cx, g, b, i) matches Ok(g1) ==> settles(g, g1),
    decreases b, b.len() - i,
{
    if i < b.len() && g.open {
        lemma_stmt(cx, g, b[i]);
        if let Ok(g1) = low_stmt(cx, g, b[i]) {
            lemma_stmts(cx, g1, b, i + 1);
        }
    }
}

pub(crate) proof fn lemma_branch_if_open(g: Gen, l: Label)
    requires
        shaped(g),
    ensures
        shaped(branch_if_open(g, l)),
        !branch_if_open(g, l).open,
        branch_if_open(g, l) == (Gen { code: branch_if_open(g, l).code, open: false, ..g }),
{
    if g.open {
        lemma_emit(g, Ins::Br(l));
    }
}

pub(crate) proof fn lemma_cond(cx: Cx, g: Gen, e: ExprV)
    requires
        fresh_start(g),
    ensures
        low_cond(cx, g, e) matches Ok((g1, v)) ==> ready(g1) && g1.vars == g.vars && g1.loops
            == g.loops && g1.temps.len() == 0,
{
    reveal(low_cond);
    lemma_expr(cx, g, e);
    if let Ok((g1, v)) = low_expr(cx, g, e) {
        lemma_flush_all(g1);
    }
}

pub(crate) proof fn lemma_if(cx: Cx, g: Gen, s: StmtV)
    requires
        fresh_start(g),
        s is If,
    ensures
        low_if(cx, g, s) matches Ok(g1) ==> settles(g, g1) && g1.vars == g.vars,
    decreases s, 0nat,
{
    if let StmtV::If { cond, then_block, else_block } = s {
        lemma_cond(cx, g, cond);
        if let Ok((g1, c)) = low_cond(cx, g, cond) {
            let yes = label(g1, Mark::Then);
            let end = label(g1, Mark::EndIf);
            let no = if else_block is Some {
                label(g1, Mark::Else)
            } else {
                end
            };
            lemma_emit(g1, Ins::CondBr(c, yes, no));
            let g2 = emit(g1, Ins::CondBr(c, yes, no));
            lemma_begin(g2, yes);
            lemma_block(cx, begin(g2, yes), then_block);
            if let Ok(g3) = low_block(cx, begin(g2, yes), then_block) {
                lemma_branch_if_open(g3, end);
                let g4 = branch_if_open(g3, end);
                lemma_begin(g4, end);
                if let Some(b) = else_block {
                    lemma_begin(g4, no);
                    lemma_block(cx, begin(g4, no), b);
                    if let Ok(g5) = low_block(cx, begin(g4, no), b) {
                        lemma_branch_if_open(g5, end);
                        lemma_begin(branch_if_open(g5, end), end);
                    }
                }
            }
        }
    }
}

pub(crate) proof fn lemma_body(cx: Cx, g: Gen, b: Seq<StmtV>, next: Label, end: Label)
    requires
        fresh_start(g),
    ensures
        low_body(cx, g, b, next, end) matches Ok(g1) ==> settles(g, g1) && g1.vars == g.vars
            && !g1.open,
    decreases b, b.len() + 2,
{
    let inner = Gen { loops: g.loops.push((next, end)), ..g };
    lemma_block(cx, inner, b);
    if let Ok(g1) = low_block(cx, inner, b) {
        assert(g1.loops.drop_last() =~= g.loops);
        lemma_branch_if_open(Gen { loops: g1.loops.drop_last(), ..g1 }, next);
    }
}

pub(crate) proof fn lemma_while(cx: Cx, g: Gen, s: StmtV)
    requires
        fresh_start(g),
        s is While,
    ensures
        low_while(cx, g, s) matches Ok(g1) ==> settles(g, g1) && g1.vars == g.vars,
    decreases s, 0nat,
{
    if let StmtV::While { cond, body } = s {
        let test = label(g, Mark::LoopCond);
        let inside = label(g, Mark::LoopBody);
        let end = label(g, Mark::LoopEnd);
        lemma_emit(g, Ins::Br(test));
        let g0 = emit(g, Ins::Br(test));
        lemma_begin(g0, test);
        lemma_cond(cx, begin(g0, test), cond);
        if let Ok((g1, c)) = low_cond(cx, begin(g0, test), cond) {
            lemma_emit(g1, Ins::CondBr(c, inside, end));
            let g2 = emit(g1, Ins::CondBr(c, inside, end));
            lemma_begin(g2, inside);
            lemma_body(cx, begin(g2, inside), body, test, end);
            if let Ok(g3) = low_body(cx, begin(g2, inside), body, test, end) {
                lemma_begin(g3, end);
            }
        }
    }
}

pub(crate) proof fn lemma_advance(g: Gen, slot: usize, test: Label)
    requires
        ready(g),
    ensures
        shaped(low_advance(g, slot, test)),
        !low_advance(g, slot, test).open,
        low_advance(g, slot, test).vars == g.vars,
        low_advance(g, slot, test).loops == g.loops,
        low_advance(g, slot, test).temps == g.temps,
{
    reveal(low_advance);
    let load = Ins::Load(Ty::I64, Val::Reg(slot));
    lemma_emit(g, load);
    let g1 = emit(g, load);
    let add = Ins::Bin(crate::ir::Op::Add, Ty::I64, reg(g1), Val::Int(1));
    lemma_emit(g1, add);
    let g2 = emit(g1, add);
    let store = Ins::Store(Ty::I64, reg(g2), Val::Reg(slot));
    lemma_emit(g2, store);
    lemma_emit(emit(g2, store), Ins::Br(test));
}

pub(crate) proof fn lemma_for(cx: Cx, g: Gen, s: StmtV)
    requires
        fresh_start(g),
        s is For,
    ensures
        low_for(cx, g, s) matches Ok(g1) ==> settles(g, g1) && g1.vars == g.vars,
    decreases s, 0nat,
{
    if let StmtV::For { var, start, end, body, line } = s {
        lemma_expr(cx, g, start);
        if let Ok((g1, from)) = low_expr(cx, g, start) {
            lemma_expr(cx, g1, end);
            if let Ok((g2, to)) = low_expr(cx, g1, end) {
                lemma_flush_all(g2);
                let before = push_scope(flush(g2, 0));
                lemma_push_pop(flush(g2, 0));
                let slot = before.code.len() as usize;
                lemma_bind_var(before, var, Type::Int, from.0);
                let g3 = bind_var(before, var, Type::Int, from.0);
                let test = label(g3, Mark::ForCond);
                let inside = label(g3, Mark::ForBody);
                let next = label(g3, Mark::ForInc);
                let out = label(g3, Mark::ForEnd);
                lemma_emit(g3, Ins::Br(test));
                lemma_begin(emit(g3, Ins::Br(test)), test);
                let g4 = begin(emit(g3, Ins::Br(test)), test);
                let load = Ins::Load(Ty::I64, Val::Reg(slot));
                lemma_emit(g4, load);
                let g5 = emit(g4, load);
                let less = Ins::Cmp(crate::ir::Pred::Slt, Ty::I64, reg(g5), to.0);
                lemma_emit(g5, less);
                let g6 = emit(g5, less);
                let branch = Ins::CondBr(reg(g6), inside, out);
                lemma_emit(g6, branch);
                lemma_begin(emit(g6, branch), inside);
                let g7 = begin(emit(g6, branch), inside);
                lemma_body(cx, g7, body, next, out);
                if let Ok(g8) = low_body(cx, g7, body, next, out) {
                    lemma_begin(g8, next);
                    lemma_advance(begin(g8, next), slot, test);
                    let g9 = pop_scope(low_advance(begin(g8, next), slot, test));
                    lemma_begin(g9, out);
                }
            }
        }
    }
}

pub(crate) proof fn lemma_keep_alive(g: Gen, g1: Gen, v: Val)
    requires
        goes_on(g, g1),
        g.temps.len() == 0,
    ensures
        ready(keep_alive(g1, 0, v).0),
        keep_alive(g1, 0, v).0.vars == g.vars,
        keep_alive(g1, 0, v).0.loops == g.loops,
        keep_alive(g1, 0, v).0.temps.len() == 0,
{
    reveal(keep_alive);
    lemma_flush_all(g1);
    lemma_flush_all(consume(g1, v));
}

pub(crate) proof fn lemma_foreach_pieces(
    g: Gen,
    var: Seq<char>,
    elem: Type,
    arr: Val,
    at: usize,
    slot: usize,
    inside: Label,
    out: Label,
)
    requires
        ready(g),
        g.vars.len() > 0,
    ensures
        ready(foreach_slots(g, var, elem)),
        foreach_slots(g, var, elem).vars.len() == g.vars.len() + 1,
        foreach_slots(g, var, elem).vars.drop_last() == g.vars,
        foreach_slots(g, var, elem).loops == g.loops,
        foreach_slots(g, var, elem).temps == g.temps,
        shaped(foreach_test(g, arr, at, inside, out)),
        !foreach_test(g, arr, at, inside, out).open,
        foreach_test(g, arr, at, inside, out).vars == g.vars,
        foreach_test(g, arr, at, inside, out).loops == g.loops,
        foreach_test(g, arr, at, inside, out).temps == g.temps,
        plain_step(g, foreach_take(g, arr, at, slot, elem)),
{
    reveal(foreach_slots);
    reveal(foreach_test);
    reveal(foreach_take);
    lemma_emit(g, Ins::Alloca(Ty::I64));
    let g1 = emit(g, Ins::Alloca(Ty::I64));
    let zero = Ins::Store(Ty::I64, Val::Int(0), reg(g1));
    lemma_emit(g1, zero);
    lemma_emit(emit(g1, zero), Ins::Alloca(ty_of(elem)));
    assert(foreach_slots(g, var, elem).vars.drop_last() =~= g.vars);
    let here = Ins::Load(Ty::I64, Val::Reg(at));
    lemma_emit(g, here);
    let h1 = emit(g, here);
    let size = Ins::Load(Ty::I64, arr);
    lemma_emit(h1, size);
    let h2 = emit(h1, size);
    let less = Ins::Cmp(crate::ir::Pred::Slt, Ty::I64, reg(h1), reg(h2));
    lemma_emit(h2, less);
    let h3 = emit(h2, less);
    lemma_emit(h3, Ins::CondBr(reg(h3), inside, out));
    let args = seq![(arr, Ty::Ptr), (reg(h1), Ty::I64)];
    lemma_call(h1, Ty::I64, Callee::Runtime(Rt::ArrGet), args);
    let k2 = call_rt(h1, Ty::I64, Rt::ArrGet, args);
    lemma_words(k2, reg(k2), elem);
    let (k3, v) = from_word(k2, reg(k2), elem);
    lemma_emit(k3, Ins::Store(ty_of(elem), v, Val::Reg(slot)));
}

pub(crate) proof fn lemma_foreach(cx: Cx, g: Gen, s: StmtV)
    requires
        fresh_start(g),
        s is ForEach,
    ensures
        low_foreach(cx, g, s) matches Ok(g1) ==> settles(g, g1) && g1.vars == g.vars,
    decreases s, 0nat,
{
    if let StmtV::ForEach { var, iterable, body, line } = s {
        lemma_expr(cx, g, iterable);
        let elem = match iterable.ty {
            Some(ty) => ty.elem(),
            None => None,
        };
        if let Ok((g1, arr)) = low_expr(cx, g, iterable) {
            if let Some(elem) = elem {
                lemma_keep_alive(g, g1, arr.0);
                let (g2, fresh) = keep_alive(g1, 0, arr.0);
                let at = g2.code.len() as usize;
                let slot = (g2.code.len() + 2) as usize;
                let none = Label { mark: Mark::Entry, at: 0 };
                lemma_foreach_pieces(g2, var, elem, arr.0, at, slot, none, none);
                let gs = foreach_slots(g2, var, elem);
                lemma_hold(gs, var, iterable, arr.0);
                let g3 = low_hold(gs, var, iterable, arr.0);
                let test = label(g3, Mark::ForeachCond);
                let inside = label(g3, Mark::ForeachBody);
                let next = label(g3, Mark::ForeachInc);
                let out = label(g3, Mark::ForeachEnd);
                lemma_emit(g3, Ins::Br(test));
                lemma_begin(emit(g3, Ins::Br(test)), test);
                let g4 = begin(emit(g3, Ins::Br(test)), test);
                lemma_foreach_pieces(g4, var, elem, arr.0, at, slot, inside, out);
                lemma_begin(foreach_test(g4, arr.0, at, inside, out), inside);
                let g5 = begin(foreach_test(g4, arr.0, at, inside, out), inside);
                lemma_foreach_pieces(g5, var, elem, arr.0, at, slot, inside, out);
                let g6 = foreach_take(g5, arr.0, at, slot, elem);
                lemma_body(cx, g6, body, next, out);
                if let Ok(g7) = low_body(cx, g6, body, next, out) {
                    lemma_begin(g7, next);
                    lemma_advance(begin(g7, next), at, test);
                    let g8 = pop_scope(low_advance(begin(g7, next), at, test));
                    lemma_begin(g8, out);
                    lemma_retain(begin(g8, out), arr.0);
                }
            }
        }
    }
}

/// An array that is held.
pub(crate) proof fn lemma_hold(g: Gen, var: Seq<char>, iterable: ExprV, arr: Val)
    requires
        ready(g),
        g.vars.len() > 0,
    ensures
        ({
            let g1 = low_hold(g, var, iterable, arr);
            &&& ready(g1)
            &&& g1.vars.len() == g.vars.len()
            &&& g1.vars.drop_last() == g.vars.drop_last()
            &&& g1.loops == g.loops
            &&& g1.temps == g.temps
        }),
{
    reveal(low_hold);
    lemma_bind_var(g, holder(var), iterable.ty->0, arr);
}

pub(crate) proof fn lemma_payload(
    g: Gen,
    base: Val,
    names: Seq<Seq<char>>,
    types: Seq<Type>,
    n: nat,
)
    requires
        ready(g),
        g.vars.len() > 0,
    ensures
        ready(bind_payload(g, base, names, types, n)),
        bind_payload(g, base, names, types, n).vars.len() == g.vars.len(),
        bind_payload(g, base, names, types, n).vars.drop_last() == g.vars.drop_last(),
        bind_payload(g, base, names, types, n).loops == g.loops,
        bind_payload(g, base, names, types, n).temps == g.temps,
    decreases n,
{
    if n > 0 {
        let i = n - 1;
        lemma_payload(g, base, names, types, i as nat);
        let g1 = bind_payload(g, base, names, types, i as nat);
        let gep = Ins::Gep(Ty::I64, base, Val::Int(n as i64));
        lemma_emit(g1, gep);
        let g2 = emit(g1, gep);
        let load = Ins::Load(ty_of(types[i]), reg(g2));
        lemma_emit(g2, load);
        let g3 = emit(g2, load);
        let v = reg(g3);
        lemma_retain(g3, v);
        let g4 = if types[i].heap() {
            retain(g3, v)
        } else {
            g3
        };
        lemma_bind_var(g4, names[i], types[i], v);
    }
}

pub(crate) proof fn lemma_arm_test(g: Gen, tag: Val, vid: Option<int>)
    requires
        ready(g),
    ensures
        ready(arm_test(g, tag, vid).0),
        arm_test(g, tag, vid).0.vars == g.vars,
        arm_test(g, tag, vid).0.loops == g.loops,
        arm_test(g, tag, vid).0.temps == g.temps,
{
    reveal(arm_test);
    match vid {
        None => {
            let here = label(g, Mark::Arm);
            lemma_emit(g, Ins::Br(here));
            lemma_begin(emit(g, Ins::Br(here)), here);
        },
        Some(v) => {
            let test = Ins::Cmp(crate::ir::Pred::Eq, Ty::I64, tag, Val::Int(v as i64));
            lemma_emit(g, test);
            let g1 = emit(g, test);
            let here = label(g1, Mark::Arm);
            let branch = Ins::CondBr(reg(g1), here, label(g1, Mark::NextArm));
            lemma_emit(g1, branch);
            lemma_begin(emit(g1, branch), here);
        },
    }
}

pub(crate) proof fn lemma_arm(
    cx: Cx,
    g: Gen,
    def: EnumV,
    arm: ArmV,
    base: Val,
    tag: Val,
    fresh: bool,
    end: Label,
)
    requires
        fresh_start(g),
    ensures
        low_arm(cx, g, def, arm, base, tag, fresh, end) matches Ok((g1, falls)) ==> settles(g, g1)
            && g1.vars == g.vars && g1.open,
    decreases arm, 0nat,
{
    if let Ok((vid, names, types)) = pattern_place(def, arm.pattern) {
        lemma_arm_test(g, tag, vid);
        let (g1, next) = arm_test(g, tag, vid);
        lemma_push_pop(g1);
        lemma_payload(push_scope(g1), base, names, types, names.len());
        let g2 = bind_payload(push_scope(g1), base, names, types, names.len());
        lemma_retain(g2, base);
        let g3 = if fresh {
            release(g2, base)
        } else {
            g2
        };
        lemma_block(cx, g3, arm.body);
        if let Ok(g4) = low_block(cx, g3, arm.body) {
            lemma_branch_if_open(pop_scope(g4), end);
            lemma_begin(branch_if_open(pop_scope(g4), end), next);
        }
    }
}

pub(crate) proof fn lemma_arms(
    cx: Cx,
    g: Gen,
    def: EnumV,
    arms: Seq<ArmV>,
    i: int,
    base: Val,
    tag: Val,
    fresh: bool,
    end: Label,
    falls: bool,
)
    requires
        fresh_start(g),
        0 <= i,
    ensures
        low_arms(cx, g, def, arms, i, base, tag, fresh, end, falls) matches Ok((g1, f)) ==> settles(
            g,
            g1,
        ) && g1.vars == g.vars && g1.open,
    decreases arms, arms.len() - i,
{
    if i < arms.len() {
        lemma_arm(cx, g, def, arms[i], base, tag, fresh, end);
        if let Ok((g1, open)) = low_arm(cx, g, def, arms[i], base, tag, fresh, end) {
            lemma_arms(cx, g1, def, arms, i + 1, base, tag, fresh, end, falls || open);
        }
    }
}

pub(crate) proof fn lemma_match(cx: Cx, g: Gen, s: StmtV)
    requires
        fresh_start(g),
        s is Match,
    ensures
        low_match(cx, g, s) matches Ok(g1) ==> settles(g, g1) && g1.vars == g.vars,
    decreases s, 0nat,
{
    if let StmtV::Match { scrutinee, arms, line } = s {
        lemma_expr(cx, g, scrutinee);
        if let Some(Type::Enum(id)) = scrutinee.ty {
            if let Ok((g1, base)) = low_expr(cx, g, scrutinee) {
                lemma_keep_alive(g, g1, base.0);
                let (g2, fresh) = keep_alive(g1, 0, base.0);
                let end = label(g2, Mark::MatchEnd);
                lemma_emit(g2, Ins::Load(Ty::I64, base.0));
                let g3 = emit(g2, Ins::Load(Ty::I64, base.0));
                let def = cx.enums[id as int];
                lemma_arms(cx, g3, def, arms, 0, base.0, reg(g3), fresh, end, false);
                if let Ok((g4, falls)) = low_arms(
                    cx,
                    g3,
                    def,
                    arms,
                    0,
                    base.0,
                    reg(g3),
                    fresh,
                    end,
                    false,
                ) {
                    lemma_emit(g4, Ins::Unreachable);
                    lemma_begin(emit(g4, Ins::Unreachable), end);
                }
            }
        }
    }
}

/// Behind every statement no temporary is left to be released.
pub proof fn law_statements_flush(cx: Cx, g: Gen, s: StmtV)
    requires
        fresh_start(g),
    ensures
        low_stmt(cx, g, s) matches Ok(g1) ==> g1.temps.len() == 0,
{
    lemma_stmt(cx, g, s);
}

// ----- loops -------------------------------------------------------------------------------------
/// Whether, in the code of a loop, the body's `continue` goes to a block that
/// adds one to the counter in `slot` and branches to the test.
pub open spec fn continue_adds_one(
    cx: Cx,
    code: Seq<Ins>,
    body: Seq<StmtV>,
    start: Gen,
    next: Label,
    out: Label,
    slot: usize,
    test: Label,
) -> bool {
    low_body(cx, start, body, next, out) matches Ok(end) && low_advance(
        begin(end, next),
        slot,
        test,
    ).code.is_prefix_of(code)
}

/// `continue` branches to the first target of the innermost loop, and in a
/// loop over a range or an array that is the block that advances the counter.
pub proof fn law_continue_advances(cx: Cx, g: Gen, s: StmtV)
    ensures
        s is Continue && g.loops.len() > 0 ==> low_stmt(cx, g, s) == Ok::<Gen, Seq<char>>(
            emit(g, Ins::Br(g.loops.last().0)),
        ),
        s is For && low_stmt(cx, g, s) is Ok ==> exists|
            start: Gen,
            next: Label,
            out: Label,
            slot: usize,
            test: Label,
        |
            continue_adds_one(
                cx,
                low_stmt(cx, g, s)->Ok_0.code,
                s->For_body,
                start,
                next,
                out,
                slot,
                test,
            ),
        s is ForEach && low_stmt(cx, g, s) is Ok ==> exists|
            start: Gen,
            next: Label,
            out: Label,
            slot: usize,
            test: Label,
        |
            continue_adds_one(
                cx,
                low_stmt(cx, g, s)->Ok_0.code,
                s->ForEach_body,
                start,
                next,
                out,
                slot,
                test,
            ),
{
    reveal(low_jump);
    if low_stmt(cx, g, s) is Ok {
        let all = low_stmt(cx, g, s)->Ok_0.code;
        match s {
            StmtV::For { var, start, end, body, line } => {
                let (g1, from) = low_expr(cx, g, start)->Ok_0;
                let (g2, to) = low_expr(cx, g1, end)->Ok_0;
                let before = push_scope(flush(g2, 0));
                let slot = before.code.len() as usize;
                let g3 = bind_var(before, var, Type::Int, from.0);
                let test = label(g3, Mark::ForCond);
                let inside = label(g3, Mark::ForBody);
                let next = label(g3, Mark::ForInc);
                let out = label(g3, Mark::ForEnd);
                let g4 = begin(emit(g3, Ins::Br(test)), test);
                let g5 = emit(g4, Ins::Load(Ty::I64, Val::Reg(slot)));
                let g6 = emit(g5, Ins::Cmp(Pred::Slt, Ty::I64, reg(g5), to.0));
                let g7 = begin(emit(g6, Ins::CondBr(reg(g6), inside, out)), inside);
                let g8 = low_body(cx, g7, body, next, out)->Ok_0;
                let last = low_advance(begin(g8, next), slot, test).code;
                assert(all == last.push(Ins::Label(out)));
                assert(last =~= all.take(last.len() as int));
                assert(continue_adds_one(cx, all, body, g7, next, out, slot, test));
            },
            StmtV::ForEach { var, iterable, body, line } => {
                let elem = iterable.ty->Some_0.elem()->Some_0;
                let (g1, arr) = low_expr(cx, g, iterable)->Ok_0;
                let (g2, fresh) = keep_alive(g1, g.temps.len(), arr.0);
                let at = g2.code.len() as usize;
                let slot = (g2.code.len() + 2) as usize;
                let g3 = low_hold(foreach_slots(g2, var, elem), var, iterable, arr.0);
                let test = label(g3, Mark::ForeachCond);
                let inside = label(g3, Mark::ForeachBody);
                let next = label(g3, Mark::ForeachInc);
                let out = label(g3, Mark::ForeachEnd);
                let g4 = begin(emit(g3, Ins::Br(test)), test);
                let g5 = begin(foreach_test(g4, arr.0, at, inside, out), inside);
                let g6 = foreach_take(g5, arr.0, at, slot, elem);
                let g7 = low_body(cx, g6, body, next, out)->Ok_0;
                let last = low_advance(begin(g7, next), at, test).code;
                let g9 = begin(pop_scope(low_advance(begin(g7, next), at, test)), out);
                assert(g9.code == last.push(Ins::Label(out)));
                if owns_iterable(iterable) {
                    reveal(call);
                    let args = seq![(arr.0, Ty::Ptr)];
                    assert(args.drop_last() =~= Seq::empty());
                    assert(pass(g9, args.drop_last()) == g9);
                }
                assert(last =~= all.take(last.len() as int));
                assert(continue_adds_one(cx, all, body, g6, next, out, at, test));
            },
            _ => {},
        }
    }
}

// ----- functions ---------------------------------------------------------------------------------
pub(crate) proof fn lemma_entry(lits: Seq<Seq<char>>, floats: Seq<Seq<char>>)
    ensures
        fresh_start(at_entry(lits, floats)),
{
}

pub(crate) proof fn lemma_params(g: Gen, params: Seq<ParamV>, n: nat)
    requires
        fresh_start(g),
    ensures
        fresh_start(bind_params(g, params, n)),
    decreases n,
{
    if n > 0 {
        lemma_params(g, params, (n - 1) as nat);
        let p = params[n - 1];
        lemma_bind_var(
            bind_params(g, params, (n - 1) as nat),
            p.name,
            p.ty,
            Val::Param((n - 1) as usize),
        );
    }
}

/// The code of a lowered function is a sequence of blocks, each of which ends
/// once, at its end.
pub proof fn law_blocks_end_once(
    cx: Cx,
    lits: Seq<Seq<char>>,
    floats: Seq<Seq<char>>,
    f: FunctionV,
)
    ensures
        low_function(cx, lits, floats, f) matches Ok(g) ==> finished(g.code),
{
    let params = all_params(f);
    let g0 = at_entry(lits, floats);
    lemma_entry(lits, floats);
    lemma_params(g0, params, params.len());
    let g1 = bind_params(g0, params, params.len());
    lemma_block(cx, g1, f.body);
    if let Ok(g2) = low_block(cx, g1, f.body) {
        if g2.open && f.ret == Type::Unit {
            lemma_emit(g2, Ins::RetVoid);
        }
    }
}

proof fn lemma_drop_words(g: Gen, at: nat, types: Seq<Type>, n: nat)
    requires
        ready(g),
    ensures
        plain_step(g, drop_words(g, at, types, n)),
    decreases n,
{
    if n > 0 {
        lemma_drop_words(g, at, types, (n - 1) as nat);
        let before = drop_words(g, at, types, (n - 1) as nat);
        if types[n - 1].heap() {
            let gep = Ins::Gep(Ty::I64, Val::Param(0), Val::Int((at + n - 1) as i64));
            lemma_emit(before, gep);
            let g1 = emit(before, gep);
            lemma_emit(g1, Ins::Load(Ty::Ptr, reg(g1)));
            let g2 = emit(g1, Ins::Load(Ty::Ptr, reg(g1)));
            lemma_retain(g2, reg(g2));
        }
    }
}

proof fn lemma_drop_variants(g: Gen, def: EnumV, tag: Val, n: nat)
    requires
        ready(g),
    ensures
        ready(drop_variants(g, def, tag, n)),
    decreases n,
{
    if n > 0 {
        lemma_drop_variants(g, def, tag, (n - 1) as nat);
        let before = drop_variants(g, def, tag, (n - 1) as nat);
        let types = def.variants[n - 1].fields;
        if crate::lowering::any_heap(types) {
            let test = Ins::Cmp(crate::ir::Pred::Eq, Ty::I64, tag, Val::Int((n - 1) as i64));
            lemma_emit(before, test);
            let g1 = emit(before, test);
            let here = label(g1, Mark::Variant);
            let next = label(g1, Mark::NextVariant);
            let branch = Ins::CondBr(reg(g1), here, next);
            lemma_emit(g1, branch);
            lemma_begin(emit(g1, branch), here);
            let g2 = begin(emit(g1, branch), here);
            lemma_drop_words(g2, 1, types, types.len());
            let g3 = drop_words(g2, 1, types, types.len());
            lemma_emit(g3, Ins::RetVoid);
            lemma_begin(emit(g3, Ins::RetVoid), next);
        }
    }
}

/// The code of destructors is in shape, too.
pub proof fn law_destructors_end_once(s: StructV, e: EnumV)
    ensures
        finished(drop_struct(s)),
        finished(drop_enum(e)),
{
    let none = Seq::<Seq<char>>::empty();
    let g = at_entry(none, none);
    lemma_entry(none, none);
    let types = crate::lowering::field_types(s);
    lemma_drop_words(g, 0, types, types.len());
    lemma_emit(drop_words(g, 0, types, types.len()), Ins::RetVoid);
    let load = Ins::Load(Ty::I64, Val::Param(0));
    lemma_emit(g, load);
    let g1 = emit(g, load);
    lemma_drop_variants(g1, e, reg(g1), e.variants.len());
    lemma_emit(drop_variants(g1, e, reg(g1), e.variants.len()), Ins::RetVoid);
}

/// So is the code of the runtime.
pub proof fn law_runtime_ends_once(rt: Rt)
    ensures
        finished(rt_code(rt)),
{
    reveal(crate::runtime::retain_code);
    reveal(crate::runtime::release_code);
    reveal(crate::runtime::alloc_str_code);
    reveal(crate::runtime::str_concat_code);
    reveal(crate::runtime::str_dup_code);
    reveal(crate::runtime::str_eq_code);
    reveal(crate::runtime::int_to_str_code);
    reveal(crate::runtime::float_to_str_code);
    reveal(crate::runtime::arr_new_code);
    reveal(crate::runtime::arr_push_code);
    reveal(crate::runtime::bounds_fail_code);
    reveal(crate::runtime::arr_get_code);
    reveal(crate::runtime::arr_set_code);
    reveal(crate::runtime::new_code);
    let code = rt_code(rt);
    assert forall|i: int| 0 < i < code.len() implies #[trigger] joint(code, i) by {
    }
}

// ----- modules -----------------------------------------------------------------------------------
/// Whether all functions have ended their blocks.
pub open spec fn all_finished(fns: Seq<FnV>) -> bool {
    forall|i: int| 0 <= i < fns.len() ==> finished((#[trigger] fns[i]).code)
}

proof fn lemma_add_finished(fns: Seq<FnV>, f: FnV)
    requires
        all_finished(fns),
        finished(f.code),
    ensures
        all_finished(fns.push(f)),
{
}

proof fn lemma_functions(cx: Cx, fs: Seq<FunctionV>, n: nat)
    ensures
        low_functions(cx, fs, n) matches Ok((fns, lits, floats)) ==> all_finished(fns),
    decreases n,
{
    if n > 0 {
        lemma_functions(cx, fs, (n - 1) as nat);
        if let Ok((fns, lits, floats)) = low_functions(cx, fs, (n - 1) as nat) {
            law_blocks_end_once(cx, lits, floats, fs[n - 1]);
        }
    }
}

proof fn lemma_struct_drops(symbols: Seq<SymbolV>, structs: Seq<StructV>, n: nat)
    ensures
        all_finished(struct_drops(symbols, structs, n)),
    decreases n,
{
    if n > 0 {
        lemma_struct_drops(symbols, structs, (n - 1) as nat);
        let any = EnumV { name: Seq::empty(), variants: Seq::empty(), line: 0 };
        law_destructors_end_once(structs[n - 1], any);
    }
}

proof fn lemma_enum_drops(symbols: Seq<SymbolV>, enums: Seq<EnumV>, n: nat)
    ensures
        all_finished(enum_drops(symbols, enums, n)),
    decreases n,
{
    if n > 0 {
        lemma_enum_drops(symbols, enums, (n - 1) as nat);
        let any = StructV { name: Seq::empty(), fields: Seq::empty(), line: 0 };
        law_destructors_end_once(any, enums[n - 1]);
    }
}

proof fn lemma_runtime(symbols: Seq<SymbolV>, fns: Seq<FnV>, n: nat)
    requires
        all_finished(fns),
        n <= rt_order().len(),
    ensures
        all_finished(with_runtime(symbols, fns, n)),
    decreases n,
{
    if n > 0 {
        lemma_runtime(symbols, fns, (n - 1) as nat);
        law_runtime_ends_once(rt_order()[n - 1]);
    }
}

/// Every function of a module is a sequence of blocks, each of which ends once,
/// at its end.
pub proof fn law_modules_end_once(p: ProgramV)
    ensures
        lowered(p) matches Ok(m) ==> all_finished(m.functions),
{
    let cx = cx_of(p);
    lemma_functions(cx, p.functions, p.functions.len());
    if let Ok((fns, lits, floats)) = low_functions(cx, p.functions, p.functions.len()) {
        lemma_struct_drops(cx.symbols, p.structs, p.structs.len());
        lemma_enum_drops(cx.symbols, p.enums, p.enums.len());
        let dropped = fns + struct_drops(cx.symbols, p.structs, p.structs.len()) + enum_drops(
            cx.symbols,
            p.enums,
            p.enums.len(),
        );
        assert(all_finished(dropped));
        if let Ok(all) = with_c_main(cx.symbols, dropped) {
            if let Some(i) = symbol_index(cx.symbols, "xia_main"@, 0) {
                let shim = c_main(cx.symbols[i], i as usize);
                assert(finished(shim.code)) by {
                    let code = shim.code;
                    assert forall|k: int| 0 < k < code.len() implies #[trigger] joint(code, k) by {
                    }
                }
                lemma_add_finished(dropped, shim);
            }
            lemma_runtime(cx.symbols, all, rt_order().len());
        }
    }
}

/// A runtime function calls none that stands before it in the order.
proof fn lemma_order(j: int, k: int)
    requires
        0 <= k < j < rt_order().len(),
    ensures
        !code_calls(rt_code(rt_order()[j]), Callee::Runtime(rt_order()[k])),
{
    reveal(crate::runtime::retain_code);
    reveal(crate::runtime::release_code);
    reveal(crate::runtime::alloc_str_code);
    reveal(crate::runtime::str_concat_code);
    reveal(crate::runtime::str_dup_code);
    reveal(crate::runtime::str_eq_code);
    reveal(crate::runtime::int_to_str_code);
    reveal(crate::runtime::float_to_str_code);
    reveal(crate::runtime::arr_new_code);
    reveal(crate::runtime::arr_push_code);
    reveal(crate::runtime::bounds_fail_code);
    reveal(crate::runtime::arr_get_code);
    reveal(crate::runtime::arr_set_code);
    reveal(crate::runtime::new_code);
    let code = rt_code(rt_order()[j]);
    let c = Callee::Runtime(rt_order()[k]);
    assert forall|i: int| 0 <= i < code.len() implies !is_call(#[trigger] code[i], c) by {
    }
}

/// Whether a function is there to be called.
pub open spec fn is_there(symbols: Seq<SymbolV>, fns: Seq<FnV>, rt: Rt) -> bool {
    ||| symbol_index(symbols, rt_name(rt), 0) is Some
    ||| exists|i: int| 0 <= i < fns.len() && (#[trigger] fns[i]).name == rt_name(rt)
}

proof fn lemma_complete(symbols: Seq<SymbolV>, fns: Seq<FnV>, n: nat, k: int)
    requires
        0 <= k < n <= rt_order().len(),
    ensures
        ({
            let all = with_runtime(symbols, fns, n);
            let rt = rt_order()[k];
            calls(all, Callee::Runtime(rt)) ==> is_there(symbols, all, rt)
        }),
    decreases n,
{
    let rt = rt_order()[k];
    let before = with_runtime(symbols, fns, (n - 1) as nat);
    let all = with_runtime(symbols, fns, n);
    let c = Callee::Runtime(rt);
    if calls(all, c) {
        let i = choose|i: int| 0 <= i < all.len() && code_calls((#[trigger] all[i]).code, c);
        if k == n - 1 {
            if i < before.len() {
                assert(all[i] == before[i]);
                assert(calls(before, c));
            }
            if symbol_index(symbols, rt_name(rt), 0) is None {
                assert(all[before.len() as int].name == rt_name(rt));
            }
        } else {
            if i >= before.len() {
                lemma_order(n - 1, k);
            } else {
                assert(all[i] == before[i]);
            }
            assert(calls(before, c));
            lemma_complete(symbols, fns, (n - 1) as nat, k);
            if symbol_index(symbols, rt_name(rt), 0) is None {
                let m = choose|m: int|
                    0 <= m < before.len() && (#[trigger] before[m]).name == rt_name(rt);
                assert(all[m] == before[m]);
            }
        }
    }
}

/// Every runtime function that a module calls is part of it (or one that the
/// program declares or defines under the same name).
pub proof fn law_runtime_is_complete(p: ProgramV, rt: Rt)
    ensures
        lowered(p) matches Ok(m) ==> (calls(m.functions, Callee::Runtime(rt)) ==> is_there(
            m.symbols,
            m.functions,
            rt,
        )),
{
    if let Ok(m) = lowered(p) {
        let order = rt_order();
        assert(exists|k: int| 0 <= k < order.len() && order[k] == rt) by {
            match rt {
                Rt::ArrSet => assert(order[0] == rt),
                Rt::ArrGet => assert(order[1] == rt),
                Rt::ArrPush => assert(order[2] == rt),
                Rt::ArrNew => assert(order[3] == rt),
                Rt::StrConcat => assert(order[4] == rt),
                Rt::StrDup => assert(order[5] == rt),
                Rt::StrEq => assert(order[6] == rt),
                Rt::IntToStr => assert(order[7] == rt),
                Rt::FloatToStr => assert(order[8] == rt),
                Rt::New => assert(order[9] == rt),
                Rt::BoundsFail => assert(order[10] == rt),
                Rt::Release => assert(order[11] == rt),
                Rt::Retain => assert(order[12] == rt),
                Rt::AllocStr => assert(order[13] == rt),
            }
        }
        let k = choose|k: int| 0 <= k < order.len() && order[k] == rt;
        let cx = cx_of(p);
        if let Ok((fns, lits, floats)) = low_functions(cx, p.functions, p.functions.len()) {
            let dropped = fns + struct_drops(cx.symbols, p.structs, p.structs.len()) + enum_drops(
                cx.symbols,
                p.enums,
                p.enums.len(),
            );
            if let Ok(all) = with_c_main(cx.symbols, dropped) {
                lemma_complete(cx.symbols, all, order.len(), k);
            }
        }
    }
}

} // verus!
