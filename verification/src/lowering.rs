//! What programs are lowered to.
//!
//! | Xia                 | LLVM  |
//! |---------------------|-------|
//! | int                 | i64   |
//! | float               | f64   |
//! | bool                | i1    |
//! | str, `[T]`, struct, enum | ptr |
//! | unit                | void  |
//!
//! Heap memory layout. Every reference-counted block carries a 16-byte
//! header `[i64 kind][i64 refcount]` and the value points just past it:
//!
//! - string (kind 0): `[kind][rc][bytes...][NUL]` — the value points at the
//!   bytes, so every Xia `str` doubles as a `char*` for the C FFI.
//! - array (kind 1 plain / kind 2 heap elements):
//!   `[kind][rc][i64 len][i64 cap][ptr data]` — the value points at `len`;
//!   elements live in a separately allocated buffer of 8-byte words.
//! - struct: `[kind][rc][field0][field1]...` with one 8-byte word per field;
//!   kind 0 where no field is on the heap, else the address of its destructor.
//! - enum: `[kind][rc][i64 tag][payload...]` — the value points at the tag;
//!   the kind is as with structs.
//!
//! A negative refcount marks an immortal value (string literals live in
//! constant globals and are never freed).
use vstd::prelude::*;
use crate::ast::{
    ArmV, BinOp, EnumV, ExprV, ExternV, Function, FunctionV, KindV, ParamV, PatternV, ProgramV,
    StmtV, StructV, Type, UnOp,
};
use crate::counting::{holder, owns_iterable};
use crate::ir::{Callee, Conv, Ins, Label, Libc, Mark, Op, Pred, Rt, Ty, Val};
use crate::naming::{bare, primes};
use crate::runtime::{rt_code, rt_name, rt_order, rt_params, rt_ret};
use crate::text::dec;

verus! {

/// What a call can be made to: a function of the program or a foreign one.
#[verifier::ext_equal]
pub struct SymbolV {
    /// The name it has in the module.
    pub name: Seq<char>,
    pub params: Seq<Ty>,
    pub varargs: bool,
    pub ret: Type,
    pub is_extern: bool,
}

/// What does not change while a program is lowered.
#[verifier::ext_equal]
pub struct Cx {
    pub symbols: Seq<SymbolV>,
    /// The symbol that a name in the program stands for.
    pub callees: Map<Seq<char>, usize>,
    pub structs: Seq<StructV>,
    pub struct_ids: Map<Seq<char>, u32>,
    pub enums: Seq<EnumV>,
}

/// The variables of a scope: stack slot and type.
pub type Slots = Map<Seq<char>, (usize, Type)>;

/// The state of lowering a function.
#[verifier::ext_equal]
pub struct Gen {
    pub code: Seq<Ins>,
    /// Scope stack mapping variable name -> (stack slot, type).
    pub vars: Seq<Slots>,
    /// (continue target, break target) for each enclosing loop.
    pub loops: Seq<(Label, Label)>,
    /// Fresh (+1) heap values produced while lowering the current statement;
    /// released once the statement completes unless ownership transferred.
    pub temps: Seq<Val>,
    /// Interned string literals.
    pub lits: Seq<Seq<char>>,
    /// Floating-point literals.
    pub floats: Seq<Seq<char>>,
    /// The block that instructions go to.
    pub here: Label,
    /// Whether that block still lacks an end.
    pub open: bool,
}

/// A lowered value and its type.
pub type Value = (Val, Ty);

/// The outcome of a step: the state behind it and a result, or what is wrong.
pub type Step<T> = Result<(Gen, T), Seq<char>>;

// ----- single instructions --------------------------------------------------------------
pub open spec fn ty_of(t: Type) -> Ty {
    match t {
        Type::Int => Ty::I64,
        Type::Float => Ty::F64,
        Type::Bool => Ty::I1,
        Type::Str | Type::Array(..) | Type::Struct(_) | Type::Enum(_) => Ty::Ptr,
        Type::Unit => Ty::Void,
    }
}

/// An instruction, appended.
pub open spec fn emit(g: Gen, i: Ins) -> Gen {
    Gen { code: g.code.push(i), open: g.open && !i.ends_block(), ..g }
}

/// The result of the last instruction.
pub open spec fn reg(g: Gen) -> Val {
    Val::Reg((g.code.len() - 1) as usize)
}

/// A block, begun.
pub open spec fn begin(g: Gen, l: Label) -> Gen {
    Gen { code: g.code.push(Ins::Label(l)), here: l, open: true, ..g }
}

/// A branch to `l`, where the block still lacks an end.
pub open spec fn branch_if_open(g: Gen, l: Label) -> Gen {
    if g.open {
        emit(g, Ins::Br(l))
    } else {
        g
    }
}

/// A label of a construct that begins at the current position.
pub open spec fn label(g: Gen, mark: Mark) -> Label {
    Label { mark, at: g.code.len() as usize }
}

/// The arguments of a call, appended.
pub open spec fn pass(g: Gen, args: Seq<Value>) -> Gen
    decreases args.len(),
{
    if args.len() == 0 {
        g
    } else {
        let before = pass(g, args.drop_last());
        emit(before, Ins::Arg(args.last().1, args.last().0))
    }
}

/// A call, appended.
#[verifier::opaque]
pub open spec fn call(g: Gen, ret: Ty, callee: Callee, args: Seq<Value>) -> Gen {
    emit(pass(g, args), Ins::Call(ret, callee, args.len() as usize))
}

pub open spec fn call_rt(g: Gen, ret: Ty, rt: Rt, args: Seq<Value>) -> Gen {
    call(g, ret, Callee::Runtime(rt), args)
}

pub open spec fn retain(g: Gen, v: Val) -> Gen {
    call_rt(g, Ty::Void, Rt::Retain, seq![(v, Ty::Ptr)])
}

pub open spec fn release(g: Gen, v: Val) -> Gen {
    call_rt(g, Ty::Void, Rt::Release, seq![(v, Ty::Ptr)])
}

// ----- statement temporaries --------------------------------------------------------------
/// A fresh heap value, to be released at the end of the statement.
pub open spec fn with_temp(g: Gen, v: Val) -> Gen {
    Gen { temps: g.temps.push(v), ..g }
}

/// The values without the last occurrence of `v` among the first `n`.
pub open spec fn without_last(temps: Seq<Val>, v: Val, n: nat) -> Seq<Val>
    decreases n,
{
    if n == 0 {
        temps
    } else if temps[n - 1] == v {
        temps.remove(n - 1)
    } else {
        without_last(temps, v, (n - 1) as nat)
    }
}

/// A heap value is no longer pending, because its ownership was transferred
/// (into a binding or to the caller).
pub open spec fn consume(g: Gen, v: Val) -> Gen {
    Gen { temps: without_last(g.temps, v, g.temps.len()), ..g }
}

/// Every pending value but the first `from`, released, the last one first.
pub open spec fn flush(g: Gen, from: nat) -> Gen
    decreases g.temps.len(),
    via flush_decreases
{
    if g.temps.len() <= from {
        g
    } else {
        flush(release(Gen { temps: g.temps.drop_last(), ..g }, g.temps.last()), from)
    }
}

#[via_fn]
proof fn flush_decreases(g: Gen, from: nat) {
    if g.temps.len() > from {
        let g1 = Gen { temps: g.temps.drop_last(), ..g };
        lemma_release_keeps(g1, g.temps.last());
    }
}

/// A release changes nothing but the code.
pub proof fn lemma_release_keeps(g: Gen, v: Val)
    ensures
        release(g, v) == (Gen { code: release(g, v).code, ..g }),
{
    reveal(call);
    let args = seq![(v, Ty::Ptr)];
    assert(args.drop_last() =~= Seq::empty());
    assert(pass(g, args.drop_last()) == g);
}

// ----- variables and literals --------------------------------------------------------------
/// The innermost variable of that name.
pub open spec fn find_var(vars: Seq<Slots>, name: Seq<char>) -> Option<(usize, Type)>
    decreases vars.len(),
{
    if vars.len() == 0 {
        None
    } else if vars.last().contains_key(name) {
        Some(vars.last()[name])
    } else {
        find_var(vars.drop_last(), name)
    }
}

/// The variable of that name that `k` others hide.
pub open spec fn find_hidden(vars: Seq<Slots>, name: Seq<char>, k: nat) -> Option<(usize, Type)>
    decreases vars.len(),
{
    if vars.len() == 0 {
        None
    } else if !vars.last().contains_key(name) {
        find_hidden(vars.drop_last(), name, k)
    } else if k == 0 {
        Some(vars.last()[name])
    } else {
        find_hidden(vars.drop_last(), name, (k - 1) as nat)
    }
}

pub open spec fn unknown_variable(name: Seq<char>) -> Seq<char> {
    "codegen: unknown variable `"@ + name + "`"@
}

/// A variable in the innermost scope.
pub open spec fn with_var(g: Gen, name: Seq<char>, slot: usize, ty: Type) -> Gen {
    Gen { vars: g.vars.drop_last().push(g.vars.last().insert(name, (slot, ty))), ..g }
}

pub open spec fn push_scope(g: Gen) -> Gen {
    Gen { vars: g.vars.push(Map::empty()), ..g }
}

pub open spec fn pop_scope(g: Gen) -> Gen {
    Gen { vars: g.vars.drop_last(), ..g }
}

/// A stack slot for a variable, and the value stored into it.
pub open spec fn bind_var(g: Gen, name: Seq<char>, ty: Type, v: Val) -> Gen {
    let g1 = emit(g, Ins::Alloca(ty_of(ty)));
    let slot = (g1.code.len() - 1) as usize;
    with_var(emit(g1, Ins::Store(ty_of(ty), v, Val::Reg(slot))), name, slot, ty)
}

/// The position of the first such text at or after `i`.
pub open spec fn text_index(texts: Seq<Seq<char>>, s: Seq<char>, i: int) -> Option<int>
    decreases texts.len() - i,
{
    if i < 0 || i >= texts.len() {
        None
    } else if texts[i] == s {
        Some(i)
    } else {
        text_index(texts, s, i + 1)
    }
}

/// An interned string literal.
pub open spec fn literal(g: Gen, s: Seq<char>) -> (Gen, Val) {
    match text_index(g.lits, s, 0) {
        Some(i) => (g, Val::Lit(i as usize)),
        None => (
            Gen { lits: g.lits.push(s), ..g },
            Val::Lit(g.lits.len() as usize),
        ),
    }
}

// ----- words -------------------------------------------------------------------------------
/// A value packed into the 8-byte word stored in an array buffer.
pub open spec fn to_word(g: Gen, v: Val, elem: Type) -> (Gen, Val) {
    match ty_of(elem) {
        Ty::F64 => {
            let g1 = emit(g, Ins::Convert(Conv::FloatBits, v));
            (g1, reg(g1))
        },
        Ty::I1 => {
            let g1 = emit(g, Ins::Convert(Conv::BoolWord, v));
            (g1, reg(g1))
        },
        Ty::Ptr => {
            let g1 = emit(g, Ins::Convert(Conv::PtrWord, v));
            (g1, reg(g1))
        },
        _ => (g, v),
    }
}

/// An 8-byte array word unpacked into a typed value.
pub open spec fn from_word(g: Gen, w: Val, elem: Type) -> (Gen, Val) {
    match ty_of(elem) {
        Ty::F64 => {
            let g1 = emit(g, Ins::Convert(Conv::BitsFloat, w));
            (g1, reg(g1))
        },
        Ty::I1 => {
            let g1 = emit(g, Ins::Convert(Conv::WordBool, w));
            (g1, reg(g1))
        },
        Ty::Ptr => {
            let g1 = emit(g, Ins::Convert(Conv::WordPtr, w));
            (g1, reg(g1))
        },
        _ => (g, w),
    }
}

// ----- expressions -------------------------------------------------------------------------
/// The value of a variable.
#[verifier::opaque]
pub open spec fn low_var(g: Gen, name: Seq<char>) -> Step<Value> {
    match find_var(g.vars, name) {
        None => Err(unknown_variable(name)),
        Some((slot, ty)) => {
            let g1 = emit(g, Ins::Load(ty_of(ty), Val::Reg(slot)));
            Ok((g1, (reg(g1), ty_of(ty))))
        },
    }
}

/// A unary operation.
#[verifier::opaque]
pub open spec fn low_unary(g: Gen, op: UnOp, v: Value) -> Step<Value> {
    match (op, v.1) {
        (UnOp::Neg, Ty::I64) => {
            let g1 = emit(g, Ins::Bin(Op::Sub, Ty::I64, Val::Int(0), v.0));
            Ok((g1, (reg(g1), Ty::I64)))
        },
        (UnOp::Neg, Ty::F64) => {
            let g1 = emit(g, Ins::FNeg(v.0));
            Ok((g1, (reg(g1), Ty::F64)))
        },
        (UnOp::Not, Ty::I1) => {
            let g1 = emit(g, Ins::Bin(Op::Xor, Ty::I1, v.0, Val::Bool(true)));
            Ok((g1, (reg(g1), Ty::I1)))
        },
        _ => Err("codegen: invalid unary operand"@),
    }
}

/// The instruction for an operation on integers or bools.
pub open spec fn int_op(op: BinOp, ty: Ty, l: Val, r: Val) -> Option<(Ins, Ty)> {
    match op {
        BinOp::Add => Some((Ins::Bin(Op::Add, ty, l, r), ty)),
        BinOp::Sub => Some((Ins::Bin(Op::Sub, ty, l, r), ty)),
        BinOp::Mul => Some((Ins::Bin(Op::Mul, ty, l, r), ty)),
        BinOp::Div => Some((Ins::Bin(Op::SDiv, ty, l, r), ty)),
        BinOp::Rem => Some((Ins::Bin(Op::SRem, ty, l, r), ty)),
        BinOp::Eq => Some((Ins::Cmp(Pred::Eq, ty, l, r), Ty::I1)),
        BinOp::Ne => Some((Ins::Cmp(Pred::Ne, ty, l, r), Ty::I1)),
        BinOp::Lt => Some((Ins::Cmp(Pred::Slt, ty, l, r), Ty::I1)),
        BinOp::Le => Some((Ins::Cmp(Pred::Sle, ty, l, r), Ty::I1)),
        BinOp::Gt => Some((Ins::Cmp(Pred::Sgt, ty, l, r), Ty::I1)),
        BinOp::Ge => Some((Ins::Cmp(Pred::Sge, ty, l, r), Ty::I1)),
        BinOp::And | BinOp::Or => None,
    }
}

/// The instruction for an operation on floats.
pub open spec fn float_op(op: BinOp, l: Val, r: Val) -> Option<(Ins, Ty)> {
    match op {
        BinOp::Add => Some((Ins::Bin(Op::FAdd, Ty::F64, l, r), Ty::F64)),
        BinOp::Sub => Some((Ins::Bin(Op::FSub, Ty::F64, l, r), Ty::F64)),
        BinOp::Mul => Some((Ins::Bin(Op::FMul, Ty::F64, l, r), Ty::F64)),
        BinOp::Div => Some((Ins::Bin(Op::FDiv, Ty::F64, l, r), Ty::F64)),
        BinOp::Rem => Some((Ins::Bin(Op::FRem, Ty::F64, l, r), Ty::F64)),
        BinOp::Eq => Some((Ins::Cmp(Pred::FEq, Ty::F64, l, r), Ty::I1)),
        BinOp::Ne => Some((Ins::Cmp(Pred::FNe, Ty::F64, l, r), Ty::I1)),
        BinOp::Lt => Some((Ins::Cmp(Pred::FLt, Ty::F64, l, r), Ty::I1)),
        BinOp::Le => Some((Ins::Cmp(Pred::FLe, Ty::F64, l, r), Ty::I1)),
        BinOp::Gt => Some((Ins::Cmp(Pred::FGt, Ty::F64, l, r), Ty::I1)),
        BinOp::Ge => Some((Ins::Cmp(Pred::FGe, Ty::F64, l, r), Ty::I1)),
        BinOp::And | BinOp::Or => None,
    }
}

/// An operation on strings: `+` concatenates, `==` and `!=` compare by value.
#[verifier::opaque]
pub open spec fn str_op(g: Gen, op: BinOp, l: Val, r: Val) -> Step<Value> {
    let args = seq![(l, Ty::Ptr), (r, Ty::Ptr)];
    match op {
        BinOp::Add => {
            let g1 = call_rt(g, Ty::Ptr, Rt::StrConcat, args);
            Ok((with_temp(g1, reg(g1)), (reg(g1), Ty::Ptr)))
        },
        BinOp::Eq => {
            let g1 = call_rt(g, Ty::I1, Rt::StrEq, args);
            Ok((g1, (reg(g1), Ty::I1)))
        },
        BinOp::Ne => {
            let g1 = call_rt(g, Ty::I1, Rt::StrEq, args);
            let g2 = emit(g1, Ins::Bin(Op::Xor, Ty::I1, reg(g1), Val::Bool(true)));
            Ok((g2, (reg(g2), Ty::I1)))
        },
        _ => Err("codegen: unsupported string operation"@),
    }
}

/// A binary operation on two values (`and` and `or` need control flow, and
/// never come here).
#[verifier::opaque]
pub open spec fn low_binary(g: Gen, op: BinOp, l: Value, r: Value) -> Step<Value> {
    if l.1 != r.1 {
        Err("codegen: mismatched binary operand types"@)
    } else {
        match l.1 {
            Ty::I64 | Ty::I1 => match int_op(op, l.1, l.0, r.0) {
                Some((i, ty)) => {
                    let g1 = emit(g, i);
                    Ok((g1, (reg(g1), ty)))
                },
                None => Err("codegen: mismatched binary operand types"@),
            },
            Ty::F64 => match float_op(op, l.0, r.0) {
                Some((i, ty)) => {
                    let g1 = emit(g, i);
                    Ok((g1, (reg(g1), ty)))
                },
                None => Err("codegen: mismatched binary operand types"@),
            },
            Ty::Ptr => str_op(g, op, l.0, r.0),
            _ => Err("codegen: mismatched binary operand types"@),
        }
    }
}

/// The text form of a printable value; strings stand for themselves.
#[verifier::opaque]
pub open spec fn bool_text(g: Gen, v: Val) -> (Gen, Val) {
    let (g1, t) = literal(g, "true"@);
    let (g2, f) = literal(g1, "false"@);
    let g3 = emit(g2, Ins::Select(v, Ty::Ptr, t, f));
    (g3, reg(g3))
}

/// `print(x)` is a libc `printf` call.
#[verifier::opaque]
pub open spec fn low_print(g: Gen, v: Val, ty: Option<Type>) -> Result<Gen, Seq<char>> {
    match ty {
        Some(Type::Int) => Ok(printf(g, "%lld\n"@, (v, Ty::I64))),
        Some(Type::Float) => Ok(printf(g, "%g\n"@, (v, Ty::F64))),
        Some(Type::Str) => Ok(printf(g, "%s\n"@, (v, Ty::Ptr))),
        Some(Type::Bool) => {
            let (g1, s) = bool_text(g, v);
            Ok(printf(g1, "%s\n"@, (s, Ty::Ptr)))
        },
        _ => Err("codegen: cannot print this type"@),
    }
}

/// A `printf` of one value.
#[verifier::opaque]
pub open spec fn printf(g: Gen, format: Seq<char>, v: Value) -> Gen {
    let (g1, f) = literal(g, format);
    call(g1, Ty::I32, Callee::C(Libc::Printf), seq![(f, Ty::Ptr), v])
}

/// `str(x)`: a fresh string.
#[verifier::opaque]
pub open spec fn low_str(g: Gen, v: Val, ty: Option<Type>) -> Step<Value> {
    let made = match ty {
        Some(Type::Int) => {
            let g1 = call_rt(g, Ty::Ptr, Rt::IntToStr, seq![(v, Ty::I64)]);
            Ok((g1, reg(g1)))
        },
        Some(Type::Float) => {
            let g1 = call_rt(g, Ty::Ptr, Rt::FloatToStr, seq![(v, Ty::F64)]);
            Ok((g1, reg(g1)))
        },
        // Immortal literals: retain/release are no-ops on them, so the select
        // result is safely treated as owned.
        Some(Type::Bool) => Ok(bool_text(g, v)),
        Some(Type::Str) => {
            let g1 = call_rt(g, Ty::Ptr, Rt::StrDup, seq![(v, Ty::Ptr)]);
            Ok((g1, reg(g1)))
        },
        Some(other) => Err("codegen: str() of "@ + other.shown()),
        None => Err("codegen: str() of an untyped value"@),
    };
    match made {
        Ok((g1, s)) => Ok((with_temp(g1, s), (s, Ty::Ptr))),
        Err(m) => Err(m),
    }
}

/// `len(x)`: a string is measured, an array value points at its length.
#[verifier::opaque]
pub open spec fn low_len(g: Gen, v: Val, ty: Option<Type>) -> Step<Value> {
    match ty {
        Some(Type::Str) => {
            let g1 = call(g, Ty::I64, Callee::C(Libc::Strlen), seq![(v, Ty::Ptr)]);
            Ok((g1, (reg(g1), Ty::I64)))
        },
        Some(Type::Array(..)) => {
            let g1 = emit(g, Ins::Load(Ty::I64, v));
            Ok((g1, (reg(g1), Ty::I64)))
        },
        Some(other) => Err("codegen: len of "@ + other.shown()),
        None => Err("codegen: len of an untyped value"@),
    }
}

/// `push(xs, v)`: the array takes a reference of its own; a fresh value's +1
/// is dropped at the end of the statement.
#[verifier::opaque]
pub open spec fn low_push(g: Gen, arr: Val, v: Val, elem: Type) -> Gen {
    let (g1, w) = to_word(g, v, elem);
    call_rt(g1, Ty::Void, Rt::ArrPush, seq![(arr, Ty::Ptr), (w, Ty::I64)])
}

/// A call of a symbol. Xia functions return +1 owned values; a `str` from a
/// foreign function is memory with no refcount header, so it is copied into a
/// fresh Xia string (null-safe).
#[verifier::opaque]
pub open spec fn low_symbol(cx: Cx, g: Gen, index: usize, args: Seq<Value>)
    -> (Gen, Option<Value>) {
    let sym = cx.symbols[index as int];
    let g1 = call(g, ty_of(sym.ret), Callee::Symbol(index), args);
    if sym.ret == Type::Unit {
        (g1, None)
    } else if sym.ret == Type::Str && sym.is_extern {
        let g2 = call_rt(g1, Ty::Ptr, Rt::StrDup, seq![(reg(g1), Ty::Ptr)]);
        (with_temp(g2, reg(g2)), Some((reg(g2), Ty::Ptr)))
    } else if sym.ret.heap() && !sym.is_extern {
        (with_temp(g1, reg(g1)), Some((reg(g1), Ty::Ptr)))
    } else {
        (g1, Some((reg(g1), ty_of(sym.ret))))
    }
}

/// Whether some types hold one that lives on the heap.
pub open spec fn any_heap(types: Seq<Type>) -> bool {
    exists|i: int| 0 <= i < types.len() && (#[trigger] types[i]).heap()
}

/// The field types of a struct.
pub open spec fn field_types(def: StructV) -> Seq<Type> {
    Seq::new(def.fields.len(), |i: int| def.fields[i].ty)
}

/// Whether a variant of an enum carries something that lives on the heap.
pub open spec fn enum_owns(def: EnumV) -> bool {
    exists|i: int| 0 <= i < def.variants.len() && any_heap((#[trigger] def.variants[i]).fields)
}

/// The words of a block filled with values, from word `at` on; each heap value
/// is retained, since the block takes a reference of its own.
pub open spec fn fill(g: Gen, block: Val, at: nat, types: Seq<Type>, vals: Seq<Value>) -> Gen
    decreases vals.len(),
{
    if vals.len() == 0 {
        g
    } else {
        let i = vals.len() - 1;
        let g1 = fill(g, block, at, types, vals.drop_last());
        let g2 = if types[i].heap() {
            retain(g1, vals[i].0)
        } else {
            g1
        };
        let g3 = emit(g2, Ins::Gep(Ty::I64, block, Val::Int((at + i) as i64)));
        emit(g3, Ins::Store(ty_of(types[i]), vals[i].0, reg(g3)))
    }
}

/// A fresh block with that kind word and so many words.
pub open spec fn new_block(g: Gen, kind: Val, words: nat) -> Gen {
    call_rt(g, Ty::Ptr, Rt::New, seq![(kind, Ty::Ptr), (Val::Int(words as i64), Ty::I64)])
}

/// A struct built from its field values.
#[verifier::opaque]
pub open spec fn low_struct(cx: Cx, g: Gen, id: u32, vals: Seq<Value>) -> (Gen, Value) {
    let types = field_types(cx.structs[id as int]);
    let kind = if any_heap(types) {
        Val::DropStruct(id)
    } else {
        Val::Null
    };
    let g1 = new_block(g, kind, vals.len());
    let block = reg(g1);
    (with_temp(fill(g1, block, 0, types, vals), block), (block, Ty::Ptr))
}

/// An enum value built from its variant and payload.
#[verifier::opaque]
pub open spec fn low_variant(cx: Cx, g: Gen, eid: u32, vid: u32, vals: Seq<Value>) -> (Gen, Value) {
    let def = cx.enums[eid as int];
    let types = def.variants[vid as int].fields;
    let kind = if enum_owns(def) {
        Val::DropEnum(eid)
    } else {
        Val::Null
    };
    let g1 = new_block(g, kind, vals.len() + 1);
    let block = reg(g1);
    let g2 = emit(g1, Ins::Store(Ty::I64, Val::Int(vid as i64), block));
    (with_temp(fill(g2, block, 1, types, vals), block), (block, Ty::Ptr))
}

/// The value of a field; a heap value arrives retained (+1).
#[verifier::opaque]
pub open spec fn low_field(g: Gen, base: Val, index: int, ty: Type) -> (Gen, Value) {
    let g1 = emit(g, Ins::Gep(Ty::I64, base, Val::Int(index as i64)));
    let g2 = emit(g1, Ins::Load(ty_of(ty), reg(g1)));
    let v = reg(g2);
    if ty.heap() {
        (with_temp(retain(g2, v), v), (v, Ty::Ptr))
    } else {
        (g2, (v, ty_of(ty)))
    }
}

/// The value of an array element; a heap value arrives retained (+1).
#[verifier::opaque]
pub open spec fn low_index(g: Gen, arr: Val, index: Val, elem: Type) -> (Gen, Value) {
    let g1 = call_rt(g, Ty::I64, Rt::ArrGet, seq![(arr, Ty::Ptr), (index, Ty::I64)]);
    let (g2, v) = from_word(g1, reg(g1), elem);
    if elem.heap() {
        (with_temp(g2, v), (v, Ty::Ptr))
    } else {
        (g2, (v, ty_of(elem)))
    }
}

/// The kind word of an array: 2 where its elements live on the heap, else 1.
pub open spec fn array_kind(elem: Type) -> i64 {
    if elem.heap() {
        2
    } else {
        1
    }
}

/// The number of elements an array literal has room for.
pub open spec fn array_room(n: nat) -> i64 {
    if n > 4 {
        n as i64
    } else {
        4
    }
}

/// An expression and its value.
pub open spec fn low_expr(cx: Cx, g: Gen, e: ExprV) -> Step<Value>
    decreases e, 2nat,
{
    match e.kind {
        KindV::Int(n) => Ok((g, (Val::Int(n), Ty::I64))),
        KindV::Float(s) => Ok(
            (
                Gen { floats: g.floats.push(s), ..g },
                (Val::Float(g.floats.len() as usize), Ty::F64),
            ),
        ),
        KindV::Bool(b) => Ok((g, (Val::Bool(b), Ty::I1))),
        KindV::Str(s) => {
            let (g1, v) = literal(g, s);
            Ok((g1, (v, Ty::Ptr)))
        },
        KindV::Var(name) => low_var(g, name),
        KindV::Unary(op, a) => match low_expr(cx, g, *a) {
            Ok((g1, v)) => low_unary(g1, op, v),
            Err(m) => Err(m),
        },
        KindV::Binary(a, op, b) => if op == BinOp::And || op == BinOp::Or {
            low_short_circuit(cx, g, e)
        } else {
            match low_expr(cx, g, *a) {
                Ok((g1, l)) => match low_expr(cx, g1, *b) {
                    Ok((g2, r)) => low_binary(g2, op, l, r),
                    Err(m) => Err(m),
                },
                Err(m) => Err(m),
            }
        },
        KindV::Call(name, args) => match low_call(cx, g, name, args, e.span.line) {
            Ok((g1, Some(v))) => Ok((g1, v)),
            Ok((g1, None)) => Err(no_value(name, e.span.line)),
            Err(m) => Err(m),
        },
        KindV::MethodCall(recv, name, args) => match low_method(cx, g, e) {
            Ok((g1, Some(v))) => Ok((g1, v)),
            Ok((g1, None)) => Err(no_value(name, e.span.line)),
            Err(m) => Err(m),
        },
        KindV::ArrayLit(es) => low_array(cx, g, es, e.ty),
        KindV::Index(a, b) => match a.ty {
            Some(ty) => match ty.elem() {
                Some(elem) => match low_expr(cx, g, *a) {
                    Ok((g1, arr)) => match low_expr(cx, g1, *b) {
                        Ok((g2, i)) => Ok(low_index(g2, arr.0, i.0, elem)),
                        Err(m) => Err(m),
                    },
                    Err(m) => Err(m),
                },
                None => Err("codegen: indexing a non-array"@),
            },
            None => Err("codegen: indexing a non-array"@),
        },
        KindV::Field(a, name) => match field_place(cx, a.ty, name) {
            Some((index, ty)) => match low_expr(cx, g, *a) {
                Ok((g1, base)) => Ok(low_field(g1, base.0, index, ty)),
                Err(m) => Err(m),
            },
            None => Err("codegen: no field `"@ + name + "`"@),
        },
        KindV::EnumInit(eid, vid, args) => if variant_fits(cx, eid, vid, args.len()) {
            match low_exprs(cx, g, args, args.len()) {
                Ok((g1, vals)) => Ok(low_variant(cx, g1, eid, vid, vals)),
                Err(m) => Err(m),
            }
        } else {
            Err("codegen: no such variant"@)
        },
    }
}

pub open spec fn no_value(name: Seq<char>, line: usize) -> Seq<char> {
    "codegen: `"@ + name + "` returns no value (line "@ + dec(line as nat) + ")"@
}

/// The position and type of a field of a value of that type.
pub open spec fn field_place(cx: Cx, ty: Option<Type>, name: Seq<char>) -> Option<(int, Type)> {
    match ty {
        Some(Type::Struct(id)) => if id < cx.structs.len() {
            cx.structs[id as int].field_of(name)
        } else {
            None
        },
        _ => None,
    }
}

/// Whether there is such a variant, with so many payload values.
pub open spec fn variant_fits(cx: Cx, eid: u32, vid: u32, n: nat) -> bool {
    &&& eid < cx.enums.len()
    &&& vid < cx.enums[eid as int].variants.len()
    &&& cx.enums[eid as int].variants[vid as int].fields.len() == n
}

/// The first `n` expressions and their values, from the left.
pub open spec fn low_exprs(cx: Cx, g: Gen, es: Seq<ExprV>, n: nat) -> Step<Seq<Value>>
    decreases es, n,
{
    if n == 0 || n > es.len() {
        Ok((g, Seq::empty()))
    } else {
        match low_exprs(cx, g, es, (n - 1) as nat) {
            Ok((g1, vals)) => match low_expr(cx, g1, es[n - 1]) {
                Ok((g2, v)) => Ok((g2, vals.push(v))),
                Err(m) => Err(m),
            },
            Err(m) => Err(m),
        }
    }
}

/// `and` / `or`. Both operands are bool, so any temporaries made inside are
/// dead once the bool is computed; those made on a conditional path are
/// released on that path.
pub open spec fn low_short_circuit(cx: Cx, g: Gen, e: ExprV) -> Step<Value>
    decreases e, 1nat,
{
    match e.kind {
        KindV::Binary(a, op, b) => {
            let checkpoint = g.temps.len();
            match low_expr(cx, g, *a) {
                Err(m) => Err(m),
                Ok((g1, l)) => {
                    let g2 = flush(g1, checkpoint);
                    let lhs_end = g2.here;
                    let rhs = label(g2, Mark::ScRhs);
                    let end = label(g2, Mark::ScEnd);
                    let g3 = emit(
                        g2,
                        if op == BinOp::And {
                            Ins::CondBr(l.0, rhs, end)
                        } else {
                            Ins::CondBr(l.0, end, rhs)
                        },
                    );
                    match low_expr(cx, begin(g3, rhs), *b) {
                        Err(m) => Err(m),
                        Ok((g4, r)) => {
                            let g5 = flush(g4, checkpoint);
                            let rhs_end = g5.here;
                            let g6 = begin(emit(g5, Ins::Br(end)), end);
                            let g7 = emit(
                                g6,
                                Ins::Phi(
                                    Ty::I1,
                                    Val::Bool(op == BinOp::Or),
                                    lhs_end,
                                    r.0,
                                    rhs_end,
                                ),
                            );
                            Ok((g7, (reg(g7), Ty::I1)))
                        },
                    }
                },
            }
        },
        _ => Err(Seq::empty()),
    }
}

/// A call and its value, if it has one.
pub open spec fn low_call(cx: Cx, g: Gen, name: Seq<char>, args: Seq<ExprV>, line: usize) -> Step<
    Option<Value>,
>
    decreases args, args.len() + 2,
{
    if one_argument(name) {
        if args.len() != 1 {
            Err(bad_count(name))
        } else {
            match low_expr(cx, g, args[0]) {
                Err(m) => Err(m),
                Ok((g1, v)) => low_builtin(g1, name, v.0, args[0].ty),
            }
        }
    } else if name == "push"@ {
        if args.len() != 2 {
            Err(bad_count(name))
        } else {
            match args[0].ty {
                Some(ty) => match ty.elem() {
                    None => Err("codegen: push to a non-array"@),
                    Some(elem) => match low_expr(cx, g, args[0]) {
                        Err(m) => Err(m),
                        Ok((g1, arr)) => match low_expr(cx, g1, args[1]) {
                            Err(m) => Err(m),
                            Ok((g2, v)) => Ok((low_push(g2, arr.0, v.0, elem), None)),
                        },
                    },
                },
                None => Err("codegen: push to a non-array"@),
            }
        }
    } else if cx.struct_ids.contains_key(name) {
        let id = cx.struct_ids[name];
        if id >= cx.structs.len() || cx.structs[id as int].fields.len() != args.len() {
            Err(bad_count(name))
        } else {
            match low_exprs(cx, g, args, args.len()) {
                Err(m) => Err(m),
                Ok((g1, vals)) => {
                    let (g2, v) = low_struct(cx, g1, id, vals);
                    Ok((g2, Some(v)))
                },
            }
        }
    } else if cx.callees.contains_key(name) && cx.callees[name] < cx.symbols.len() {
        match low_exprs(cx, g, args, args.len()) {
            Err(m) => Err(m),
            Ok((g1, vals)) => Ok(low_symbol(cx, g1, cx.callees[name], vals)),
        }
    } else {
        Err(
            "codegen: unknown function `"@ + name + "` (line "@ + dec(line as nat) + ")"@,
        )
    }
}

/// Whether a builtin takes one argument.
pub open spec fn one_argument(name: Seq<char>) -> bool {
    name == "print"@ || name == "str"@ || name == "len"@
}

pub open spec fn bad_count(name: Seq<char>) -> Seq<char> {
    "codegen: wrong number of arguments for `"@ + name + "`"@
}

/// A builtin of one argument.
#[verifier::opaque]
pub open spec fn low_builtin(g: Gen, name: Seq<char>, v: Val, ty: Option<Type>) -> Step<
    Option<Value>,
> {
    if name == "print"@ {
        match low_print(g, v, ty) {
            Ok(g1) => Ok((g1, None)),
            Err(m) => Err(m),
        }
    } else {
        match (if name == "str"@ {
            low_str(g, v, ty)
        } else {
            low_len(g, v, ty)
        }) {
            Ok((g1, s)) => Ok((g1, Some(s))),
            Err(m) => Err(m),
        }
    }
}

/// The symbol of a method of a value of that type.
pub open spec fn method_place(cx: Cx, ty: Option<Type>, name: Seq<char>) -> Option<usize> {
    match ty {
        Some(Type::Struct(id)) => if id < cx.structs.len() {
            let key = Function::symbol(cx.structs[id as int].name, name);
            if cx.callees.contains_key(key) && cx.callees[key] < cx.symbols.len() {
                Some(cx.callees[key])
            } else {
                None
            }
        } else {
            None
        },
        _ => None,
    }
}

/// A method call: a direct call with the receiver as the first argument.
pub open spec fn low_method(cx: Cx, g: Gen, e: ExprV) -> Step<Option<Value>>
    decreases e, 1nat,
{
    match e.kind {
        KindV::MethodCall(recv, name, args) => match method_place(cx, recv.ty, name) {
            None => Err(
                "codegen: unknown method `"@ + name + "` (line "@ + dec(e.span.line as nat) + ")"@,
            ),
            Some(index) => match low_expr(cx, g, *recv) {
                Err(m) => Err(m),
                Ok((g1, base)) => match low_exprs(cx, g1, args, args.len()) {
                    Err(m) => Err(m),
                    Ok((g2, vals)) => Ok(low_symbol(cx, g2, index, seq![base] + vals)),
                },
            },
        },
        _ => Err(Seq::empty()),
    }
}

/// An array literal: a fresh array, and a push of each element.
pub open spec fn low_array(cx: Cx, g: Gen, es: Seq<ExprV>, ty: Option<Type>) -> Step<Value>
    decreases es, es.len() + 2,
{
    match ty {
        Some(ty) => match ty.elem() {
            None => Err("codegen: array literal without array type"@),
            Some(elem) => {
                let g1 = call_rt(
                    g,
                    Ty::Ptr,
                    Rt::ArrNew,
                    seq![
                        (Val::Int(array_kind(elem)), Ty::I64),
                        (Val::Int(array_room(es.len())), Ty::I64),
                    ],
                );
                let arr = reg(g1);
                match low_elems(cx, g1, arr, elem, es, es.len()) {
                    Err(m) => Err(m),
                    Ok(g2) => Ok((with_temp(g2, arr), (arr, Ty::Ptr))),
                }
            },
        },
        None => Err("codegen: array literal without array type"@),
    }
}

/// The first `n` elements, pushed onto an array.
pub open spec fn low_elems(cx: Cx, g: Gen, arr: Val, elem: Type, es: Seq<ExprV>, n: nat) -> Result<
    Gen,
    Seq<char>,
>
    decreases es, n,
{
    if n == 0 || n > es.len() {
        Ok(g)
    } else {
        match low_elems(cx, g, arr, elem, es, (n - 1) as nat) {
            Err(m) => Err(m),
            Ok(g1) => match low_expr(cx, g1, es[n - 1]) {
                Err(m) => Err(m),
                Ok((g2, v)) => Ok(low_push(g2, arr, v.0, elem)),
            },
        }
    }
}

// ----- statements ------------------------------------------------------------------------------
/// The outcome of a statement.
pub type Done = Result<Gen, Seq<char>>;

/// Whether a fresh value is to be consumed where it goes.
pub open spec fn consume_heap(g: Gen, v: Val, ty: Option<Type>) -> Gen {
    if ty matches Some(t) && t.heap() {
        consume(g, v)
    } else {
        g
    }
}

/// A binding: ownership of a fresh value moves into it.
#[verifier::opaque]
pub open spec fn low_let(cx: Cx, g: Gen, name: Seq<char>, ty: Option<Type>, value: ExprV) -> Done {
    match ty {
        None => Err("codegen: `"@ + name + "` has no type"@),
        Some(t) => match low_expr(cx, g, value) {
            Err(m) => Err(m),
            Ok((g1, v)) => Ok(flush(consume_heap(bind_var(g1, name, t, v.0), v.0, ty), 0)),
        },
    }
}

/// An assignment. The value is evaluated first and retained if it aliases
/// another binding; then the old value is released (order matters:
/// `s = s + "x"`).
#[verifier::opaque]
pub open spec fn low_assign(cx: Cx, g: Gen, name: Seq<char>, value: ExprV) -> Done {
    match find_var(g.vars, name) {
        None => Err(unknown_variable(name)),
        Some((slot, ty)) => match low_expr(cx, g, value) {
            Err(m) => Err(m),
            Ok((g1, v)) => {
                let t = ty_of(ty);
                if ty.heap() {
                    let g2 = if value.kind is Var {
                        retain(g1, v.0)
                    } else {
                        g1
                    };
                    let g3 = emit(g2, Ins::Load(t, Val::Reg(slot)));
                    let g4 = emit(g3, Ins::Store(t, v.0, Val::Reg(slot)));
                    Ok(flush(consume(release(g4, reg(g3)), v.0), 0))
                } else {
                    Ok(flush(emit(g1, Ins::Store(t, v.0, Val::Reg(slot))), 0))
                }
            },
        },
    }
}

/// A store into an array, which retains the new element and releases the old.
#[verifier::opaque]
pub open spec fn low_index_assign(cx: Cx, g: Gen, target: ExprV, index: ExprV, value: ExprV)
    -> Done {
    let elem = match target.ty {
        Some(ty) => ty.elem(),
        None => None,
    };
    match elem {
        None => Err("codegen: index-assign target is not an array"@),
        Some(elem) => match low_expr(cx, g, target) {
            Err(m) => Err(m),
            Ok((g1, arr)) => match low_expr(cx, g1, index) {
                Err(m) => Err(m),
                Ok((g2, i)) => match low_expr(cx, g2, value) {
                    Err(m) => Err(m),
                    Ok((g3, v)) => {
                        let (g4, w) = to_word(g3, v.0, elem);
                        Ok(
                            flush(
                                call_rt(
                                    g4,
                                    Ty::Void,
                                    Rt::ArrSet,
                                    seq![(arr.0, Ty::Ptr), (i.0, Ty::I64), (w, Ty::I64)],
                                ),
                                0,
                            ),
                        )
                    },
                },
            },
        },
    }
}

/// A store into a field: the new value is retained before the old one is
/// released, so `p.x = p.x` is safe.
#[verifier::opaque]
pub open spec fn low_field_assign(cx: Cx, g: Gen, target: ExprV, field: Seq<char>, value: ExprV)
    -> Done {
    match field_place(cx, target.ty, field) {
        None => Err("codegen: no field `"@ + field + "`"@),
        Some((index, ty)) => match low_expr(cx, g, target) {
            Err(m) => Err(m),
            Ok((g1, base)) => match low_expr(cx, g1, value) {
                Err(m) => Err(m),
                Ok((g2, v)) => {
                    let g3 = emit(g2, Ins::Gep(Ty::I64, base.0, Val::Int(index as i64)));
                    let slot = reg(g3);
                    if ty.heap() {
                        let g4 = retain(g3, v.0);
                        let g5 = emit(g4, Ins::Load(Ty::Ptr, slot));
                        let g6 = emit(g5, Ins::Store(Ty::Ptr, v.0, slot));
                        Ok(flush(release(g6, reg(g5)), 0))
                    } else {
                        Ok(flush(emit(g3, Ins::Store(ty_of(ty), v.0, slot)), 0))
                    }
                },
            },
        },
    }
}

/// A bare expression; a unit call has no value.
#[verifier::opaque]
pub open spec fn low_bare(cx: Cx, g: Gen, e: ExprV) -> Done {
    let step = match (e.kind, e.ty) {
        (KindV::Call(name, args), Some(Type::Unit)) => match low_call(
            cx,
            g,
            name,
            args,
            e.span.line,
        ) {
            Ok((g1, _)) => Ok(g1),
            Err(m) => Err(m),
        },
        (KindV::MethodCall(..), Some(Type::Unit)) => match low_method(cx, g, e) {
            Ok((g1, _)) => Ok(g1),
            Err(m) => Err(m),
        },
        _ => match low_expr(cx, g, e) {
            Ok((g1, _)) => Ok(g1),
            Err(m) => Err(m),
        },
    };
    match step {
        Ok(g1) => Ok(flush(g1, 0)),
        Err(m) => Err(m),
    }
}

/// A return: the caller owns the result, so it is not released here.
#[verifier::opaque]
pub open spec fn low_return(cx: Cx, g: Gen, value: Option<ExprV>) -> Done {
    match value {
        None => Ok(emit(flush(g, 0), Ins::RetVoid)),
        Some(e) => match low_expr(cx, g, e) {
            Err(m) => Err(m),
            Ok((g1, v)) => Ok(
                emit(flush(consume_heap(g1, v.0, e.ty), 0), Ins::Ret(v.1, v.0)),
            ),
        },
    }
}

/// A retain or release of what a variable holds; primes say how many others of
/// that name hide it.
#[verifier::opaque]
pub open spec fn low_count(g: Gen, name: Seq<char>, up: bool) -> Done {
    match find_hidden(g.vars, bare(name), primes(name)) {
        None => Err(unknown_variable(name)),
        Some((slot, ty)) => {
            let g1 = emit(g, Ins::Load(ty_of(ty), Val::Reg(slot)));
            Ok(
                if up {
                    retain(g1, reg(g1))
                } else {
                    release(g1, reg(g1))
                },
            )
        },
    }
}

/// A branch to the end of the innermost loop, or to its next round.
#[verifier::opaque]
pub open spec fn low_jump(g: Gen, out: bool) -> Done {
    if g.loops.len() == 0 {
        Err(
            if out {
                "codegen: break outside loop"@
            } else {
                "codegen: continue outside loop"@
            },
        )
    } else {
        Ok(
            emit(
                g,
                Ins::Br(
                    if out {
                        g.loops.last().1
                    } else {
                        g.loops.last().0
                    },
                ),
            ),
        )
    }
}

/// A condition, whose temporaries are released before the branch on it.
#[verifier::opaque]
pub open spec fn low_cond(cx: Cx, g: Gen, e: ExprV) -> Step<Val> {
    match low_expr(cx, g, e) {
        Err(m) => Err(m),
        Ok((g1, v)) => Ok((flush(g1, 0), v.0)),
    }
}

/// A statement.
pub open spec fn low_stmt(cx: Cx, g: Gen, s: StmtV) -> Done
    decreases s, 1nat,
{
    match s {
        StmtV::Let { name, ty, value, line } => low_let(cx, g, name, ty, value),
        StmtV::Assign { name, value, line } => low_assign(cx, g, name, value),
        StmtV::IndexAssign { target, index, value, line } => low_index_assign(
            cx,
            g,
            target,
            index,
            value,
        ),
        StmtV::FieldAssign { target, field, value, line } => low_field_assign(
            cx,
            g,
            target,
            field,
            value,
        ),
        StmtV::Expr(e) => low_bare(cx, g, e),
        StmtV::Return { value, line } => low_return(cx, g, value),
        StmtV::If { .. } => low_if(cx, g, s),
        StmtV::While { .. } => low_while(cx, g, s),
        StmtV::For { .. } => low_for(cx, g, s),
        StmtV::ForEach { .. } => low_foreach(cx, g, s),
        StmtV::Match { .. } => low_match(cx, g, s),
        StmtV::Break { line } => low_jump(g, true),
        StmtV::Continue { line } => low_jump(g, false),
        StmtV::Retain(name) => low_count(g, name, true),
        StmtV::Release(name) => low_count(g, name, false),
    }
}

/// A block, in a scope of its own.
pub open spec fn low_block(cx: Cx, g: Gen, b: Seq<StmtV>) -> Done
    decreases b, b.len() + 1,
{
    match low_stmts(cx, push_scope(g), b, 0) {
        Ok(g1) => Ok(pop_scope(g1)),
        Err(m) => Err(m),
    }
}

/// The statements from position `i` on; what follows a return, break or
/// continue is dead code and is left out.
pub open spec fn low_stmts(cx: Cx, g: Gen, b: Seq<StmtV>, i: int) -> Done
    decreases b, b.len() - i,
{
    if i < 0 || i >= b.len() || !g.open {
        Ok(g)
    } else {
        match low_stmt(cx, g, b[i]) {
            Ok(g1) => low_stmts(cx, g1, b, i + 1),
            Err(m) => Err(m),
        }
    }
}

/// A conditional.
pub open spec fn low_if(cx: Cx, g: Gen, s: StmtV) -> Done
    decreases s, 0nat,
{
    match s {
        StmtV::If { cond, then_block, else_block } => match low_cond(cx, g, cond) {
            Err(m) => Err(m),
            Ok((g1, c)) => {
                let yes = label(g1, Mark::Then);
                let end = label(g1, Mark::EndIf);
                let no = if else_block is Some {
                    label(g1, Mark::Else)
                } else {
                    end
                };
                match low_block(cx, begin(emit(g1, Ins::CondBr(c, yes, no)), yes), then_block) {
                    Err(m) => Err(m),
                    Ok(g2) => {
                        let g3 = branch_if_open(g2, end);
                        match else_block {
                            None => Ok(begin(g3, end)),
                            Some(b) => match low_block(cx, begin(g3, no), b) {
                                Err(m) => Err(m),
                                Ok(g4) => Ok(begin(branch_if_open(g4, end), end)),
                            },
                        }
                    },
                }
            },
        },
        _ => Ok(g),
    }
}

/// The body of a loop: `continue` goes to `next`, `break` to `end`, and the
/// end of the body to `next`.
pub open spec fn low_body(cx: Cx, g: Gen, b: Seq<StmtV>, next: Label, end: Label) -> Done
    decreases b, b.len() + 2,
{
    match low_block(cx, Gen { loops: g.loops.push((next, end)), ..g }, b) {
        Err(m) => Err(m),
        Ok(g1) => Ok(branch_if_open(Gen { loops: g1.loops.drop_last(), ..g1 }, next)),
    }
}

/// A `while` loop.
pub open spec fn low_while(cx: Cx, g: Gen, s: StmtV) -> Done
    decreases s, 0nat,
{
    match s {
        StmtV::While { cond, body } => {
            let test = label(g, Mark::LoopCond);
            let inside = label(g, Mark::LoopBody);
            let end = label(g, Mark::LoopEnd);
            match low_cond(cx, begin(emit(g, Ins::Br(test)), test), cond) {
                Err(m) => Err(m),
                Ok((g1, c)) => match low_body(
                    cx,
                    begin(emit(g1, Ins::CondBr(c, inside, end)), inside),
                    body,
                    test,
                    end,
                ) {
                    Err(m) => Err(m),
                    Ok(g2) => Ok(begin(g2, end)),
                },
            }
        },
        _ => Ok(g),
    }
}

/// The counter in a slot, advanced by one, and a branch to the test.
#[verifier::opaque]
pub open spec fn low_advance(g: Gen, slot: usize, test: Label) -> Gen {
    let g1 = emit(g, Ins::Load(Ty::I64, Val::Reg(slot)));
    let g2 = emit(g1, Ins::Bin(Op::Add, Ty::I64, reg(g1), Val::Int(1)));
    let g3 = emit(g2, Ins::Store(Ty::I64, reg(g2), Val::Reg(slot)));
    emit(g3, Ins::Br(test))
}

/// A counting loop: the bounds are evaluated once, before it; `continue` must
/// run the increment, so it goes there.
pub open spec fn low_for(cx: Cx, g: Gen, s: StmtV) -> Done
    decreases s, 0nat,
{
    match s {
        StmtV::For { var, start, end, body, line } => match low_expr(cx, g, start) {
            Err(m) => Err(m),
            Ok((g1, from)) => match low_expr(cx, g1, end) {
                Err(m) => Err(m),
                Ok((g2, to)) => {
                    let before = push_scope(flush(g2, 0));
                    let slot = before.code.len() as usize;
                    let g3 = bind_var(before, var, Type::Int, from.0);
                    let test = label(g3, Mark::ForCond);
                    let inside = label(g3, Mark::ForBody);
                    let next = label(g3, Mark::ForInc);
                    let out = label(g3, Mark::ForEnd);
                    let g4 = begin(emit(g3, Ins::Br(test)), test);
                    let g5 = emit(g4, Ins::Load(Ty::I64, Val::Reg(slot)));
                    let g6 = emit(g5, Ins::Cmp(Pred::Slt, Ty::I64, reg(g5), to.0));
                    let g7 = begin(emit(g6, Ins::CondBr(reg(g6), inside, out)), inside);
                    match low_body(cx, g7, body, next, out) {
                        Err(m) => Err(m),
                        Ok(g8) => Ok(
                            begin(pop_scope(low_advance(begin(g8, next), slot, test)), out),
                        ),
                    }
                },
            },
        },
        _ => Ok(g),
    }
}

/// A fresh value that must outlive the statement's temporaries, and whether it
/// is one: it is pulled out of them, and the others are released.
#[verifier::opaque]
pub open spec fn keep_alive(g: Gen, checkpoint: nat, v: Val) -> (Gen, bool) {
    let fresh = g.temps.len() > 0 && g.temps.last() == v;
    let g1 = if fresh {
        consume(g, v)
    } else {
        g
    };
    (flush(g1, checkpoint), fresh)
}

/// The start of a loop over an array: the position and the variable get slots.
#[verifier::opaque]
pub open spec fn foreach_slots(g: Gen, var: Seq<char>, elem: Type) -> Gen {
    let g1 = emit(g, Ins::Alloca(Ty::I64));
    let g2 = emit(g1, Ins::Store(Ty::I64, Val::Int(0), reg(g1)));
    let g3 = emit(g2, Ins::Alloca(ty_of(elem)));
    with_var(push_scope(g3), var, (g3.code.len() - 1) as usize, elem)
}

/// An array that the loop over it owns, held in a slot of its own, so that a
/// `return` in the body can release it.
#[verifier::opaque]
pub open spec fn low_hold(g: Gen, var: Seq<char>, iterable: ExprV, arr: Val) -> Gen {
    if owns_iterable(iterable) {
        bind_var(g, holder(var), iterable.ty->0, arr)
    } else {
        g
    }
}

/// The test of a loop over an array; the length is read every time, since the
/// body may push.
#[verifier::opaque]
pub open spec fn foreach_test(g: Gen, arr: Val, at: usize, inside: Label, out: Label) -> Gen {
    let g1 = emit(g, Ins::Load(Ty::I64, Val::Reg(at)));
    let g2 = emit(g1, Ins::Load(Ty::I64, arr));
    let g3 = emit(g2, Ins::Cmp(Pred::Slt, Ty::I64, reg(g1), reg(g2)));
    emit(g3, Ins::CondBr(reg(g3), inside, out))
}

/// The element at hand goes into the variable's slot; a heap element arrives
/// retained, and the loop body releases it.
#[verifier::opaque]
pub open spec fn foreach_take(g: Gen, arr: Val, at: usize, slot: usize, elem: Type) -> Gen {
    let g1 = emit(g, Ins::Load(Ty::I64, Val::Reg(at)));
    let g2 = call_rt(g1, Ty::I64, Rt::ArrGet, seq![(arr, Ty::Ptr), (reg(g1), Ty::I64)]);
    let (g3, v) = from_word(g2, reg(g2), elem);
    emit(g3, Ins::Store(ty_of(elem), v, Val::Reg(slot)))
}

/// A loop over the elements of an array. A fresh array (literal, call result)
/// must stay alive for the whole loop, which owns it; it is released after the
/// loop.
pub open spec fn low_foreach(cx: Cx, g: Gen, s: StmtV) -> Done
    decreases s, 0nat,
{
    match s {
        StmtV::ForEach { var, iterable, body, line } => {
            let elem = match iterable.ty {
                Some(ty) => ty.elem(),
                None => None,
            };
            match elem {
                None => Err("codegen: for-in over a non-array"@),
                Some(elem) => match low_expr(cx, g, iterable) {
                    Err(m) => Err(m),
                    Ok((g1, arr)) => {
                        let g2 = keep_alive(g1, g.temps.len(), arr.0).0;
                        let at = g2.code.len() as usize;
                        let slot = (g2.code.len() + 2) as usize;
                        let g3 = low_hold(foreach_slots(g2, var, elem), var, iterable, arr.0);
                        let test = label(g3, Mark::ForeachCond);
                        let inside = label(g3, Mark::ForeachBody);
                        let next = label(g3, Mark::ForeachInc);
                        let out = label(g3, Mark::ForeachEnd);
                        let g4 = begin(emit(g3, Ins::Br(test)), test);
                        let g5 = begin(foreach_test(g4, arr.0, at, inside, out), inside);
                        let g6 = foreach_take(g5, arr.0, at, slot, elem);
                        match low_body(cx, g6, body, next, out) {
                            Err(m) => Err(m),
                            Ok(g7) => {
                                let g8 = low_advance(begin(g7, next), at, test);
                                let g9 = begin(pop_scope(g8), out);
                                Ok(
                                    if owns_iterable(iterable) {
                                        release(g9, arr.0)
                                    } else {
                                        g9
                                    },
                                )
                            },
                        }
                    },
                },
            }
        },
        _ => Ok(g),
    }
}

/// The first `n` payload values of a variant, bound to names; a heap value
/// arrives retained, and the arm releases it.
pub open spec fn bind_payload(
    g: Gen,
    base: Val,
    names: Seq<Seq<char>>,
    types: Seq<Type>,
    n: nat,
) -> Gen
    decreases n,
{
    if n == 0 {
        g
    } else {
        let i = n - 1;
        let g1 = bind_payload(g, base, names, types, i as nat);
        let g2 = emit(g1, Ins::Gep(Ty::I64, base, Val::Int(n as i64)));
        let g3 = emit(g2, Ins::Load(ty_of(types[i]), reg(g2)));
        let v = reg(g3);
        let g4 = if types[i].heap() {
            retain(g3, v)
        } else {
            g3
        };
        bind_var(g4, names[i], types[i], v)
    }
}

/// The test for an arm: whether the tag is that of its variant.
#[verifier::opaque]
pub open spec fn arm_test(g: Gen, tag: Val, vid: Option<int>) -> (Gen, Label) {
    match vid {
        None => {
            let here = label(g, Mark::Arm);
            let next = label(g, Mark::NextArm);
            (begin(emit(g, Ins::Br(here)), here), next)
        },
        Some(v) => {
            let g1 = emit(g, Ins::Cmp(Pred::Eq, Ty::I64, tag, Val::Int(v as i64)));
            let here = label(g1, Mark::Arm);
            let next = label(g1, Mark::NextArm);
            (begin(emit(g1, Ins::CondBr(reg(g1), here, next)), here), next)
        },
    }
}

/// What a pattern stands for in an enum: the variant and what it binds.
#[verifier::opaque]
pub open spec fn pattern_place(def: EnumV, p: PatternV) -> Result<
    (Option<int>, Seq<Seq<char>>, Seq<Type>),
    Seq<char>,
> {
    match p {
        PatternV::Wildcard => Ok((None, Seq::empty(), Seq::empty())),
        PatternV::Variant { name, bindings, types } => match def.variant_of(name) {
            None => Err("codegen: no variant `"@ + name + "`"@),
            Some(v) => if bindings.len() == def.variants[v].fields.len() {
                Ok((Some(v), bindings, def.variants[v].fields))
            } else {
                Err(bad_count(name))
            },
        },
    }
}

/// One arm: the test, the bindings, the body. A fresh scrutinee is released
/// once the bindings hold what they need.
pub open spec fn low_arm(
    cx: Cx,
    g: Gen,
    def: EnumV,
    arm: ArmV,
    base: Val,
    tag: Val,
    fresh: bool,
    end: Label,
) -> Result<(Gen, bool), Seq<char>>
    decreases arm, 0nat,
{
    match pattern_place(def, arm.pattern) {
        Err(m) => Err(m),
        Ok((vid, names, types)) => {
            let (g1, next) = arm_test(g, tag, vid);
            let g2 = bind_payload(push_scope(g1), base, names, types, names.len());
            let g3 = if fresh {
                release(g2, base)
            } else {
                g2
            };
            match low_block(cx, g3, arm.body) {
                Err(m) => Err(m),
                Ok(g4) => Ok((begin(branch_if_open(pop_scope(g4), end), next), g4.open)),
            }
        },
    }
}

/// The arms from position `i` on, and whether any arm so far falls through.
pub open spec fn low_arms(
    cx: Cx,
    g: Gen,
    def: EnumV,
    arms: Seq<ArmV>,
    i: int,
    base: Val,
    tag: Val,
    fresh: bool,
    end: Label,
    falls: bool,
) -> Result<(Gen, bool), Seq<char>>
    decreases arms, arms.len() - i,
{
    if i < 0 || i >= arms.len() {
        Ok((g, falls))
    } else {
        match low_arm(cx, g, def, arms[i], base, tag, fresh, end) {
            Err(m) => Err(m),
            Ok((g1, open)) => low_arms(
                cx,
                g1,
                def,
                arms,
                i + 1,
                base,
                tag,
                fresh,
                end,
                falls || open,
            ),
        }
    }
}

/// A match: the arms are tried in order. It is exhaustive, so control never
/// passes the last test.
pub open spec fn low_match(cx: Cx, g: Gen, s: StmtV) -> Done
    decreases s, 0nat,
{
    match s {
        StmtV::Match { scrutinee, arms, line } => match scrutinee.ty {
            Some(Type::Enum(id)) => if id >= cx.enums.len() {
                Err("codegen: match on a non-enum"@)
            } else {
                match low_expr(cx, g, scrutinee) {
                    Err(m) => Err(m),
                    Ok((g1, base)) => {
                        let (g2, fresh) = keep_alive(g1, g.temps.len(), base.0);
                        let end = label(g2, Mark::MatchEnd);
                        let g3 = emit(g2, Ins::Load(Ty::I64, base.0));
                        match low_arms(
                            cx,
                            g3,
                            cx.enums[id as int],
                            arms,
                            0,
                            base.0,
                            reg(g3),
                            fresh,
                            end,
                            false,
                        ) {
                            Err(m) => Err(m),
                            Ok((g4, falls)) => {
                                let g5 = emit(g4, Ins::Unreachable);
                                Ok(
                                    if falls {
                                        begin(g5, end)
                                    } else {
                                        g5
                                    },
                                )
                            },
                        }
                    },
                }
            },
            _ => Err("codegen: match on a non-enum"@),
        },
        _ => Ok(g),
    }
}

// ----- functions -------------------------------------------------------------------------------
/// A function of the module.
#[verifier::ext_equal]
pub struct FnV {
    pub name: Seq<char>,
    pub params: Seq<Ty>,
    pub ret: Ty,
    /// Whether it is hidden from other modules.
    pub internal: bool,
    pub code: Seq<Ins>,
}

pub open spec fn entry() -> Label {
    Label { mark: Mark::Entry, at: 0 }
}

/// The state at the start of a function.
pub open spec fn at_entry(lits: Seq<Seq<char>>, floats: Seq<Seq<char>>) -> Gen {
    Gen {
        code: seq![Ins::Label(entry())],
        vars: seq![Map::empty()],
        loops: Seq::empty(),
        temps: Seq::empty(),
        lits,
        floats,
        here: entry(),
        open: true,
    }
}

/// The parameters of a function, its receiver first.
pub open spec fn all_params(f: FunctionV) -> Seq<ParamV> {
    match f.recv {
        Some(recv) => seq![recv] + f.params,
        None => f.params,
    }
}

/// The first `n` parameters, each in a stack slot.
pub open spec fn bind_params(g: Gen, params: Seq<ParamV>, n: nat) -> Gen
    decreases n,
{
    if n == 0 {
        g
    } else {
        let p = params[n - 1];
        bind_var(
            bind_params(g, params, (n - 1) as nat),
            p.name,
            p.ty,
            Val::Param((n - 1) as usize),
        )
    }
}

/// A function: its parameters go to stack slots, then its body; a unit function
/// may fall off the end.
pub open spec fn low_function(
    cx: Cx,
    lits: Seq<Seq<char>>,
    floats: Seq<Seq<char>>,
    f: FunctionV,
) -> Done {
    let params = all_params(f);
    match low_block(cx, bind_params(at_entry(lits, floats), params, params.len()), f.body) {
        Err(m) => Err(m),
        Ok(g) => if !g.open {
            Ok(g)
        } else if f.ret == Type::Unit {
            Ok(emit(g, Ins::RetVoid))
        } else {
            Err(
                "function `"@ + f.name + "` may end without returning a "@ + f.ret.shown()
                    + " value"@,
            )
        },
    }
}

// ----- destructors -----------------------------------------------------------------------------
/// The heap words among the first `n` of a block, from word `at` on, released.
pub open spec fn drop_words(g: Gen, at: nat, types: Seq<Type>, n: nat) -> Gen
    decreases n,
{
    if n == 0 {
        g
    } else {
        let before = drop_words(g, at, types, (n - 1) as nat);
        if types[n - 1].heap() {
            let g1 = emit(
                before,
                Ins::Gep(Ty::I64, Val::Param(0), Val::Int((at + n - 1) as i64)),
            );
            let g2 = emit(g1, Ins::Load(Ty::Ptr, reg(g1)));
            release(g2, reg(g2))
        } else {
            before
        }
    }
}

/// The destructor of a struct: it releases each heap field.
pub open spec fn drop_struct(def: StructV) -> Seq<Ins> {
    let types = field_types(def);
    emit(
        drop_words(at_entry(Seq::empty(), Seq::empty()), 0, types, types.len()),
        Ins::RetVoid,
    ).code
}

/// The tests of the first `n` variants, and for each the release of its heap
/// payload.
pub open spec fn drop_variants(g: Gen, def: EnumV, tag: Val, n: nat) -> Gen
    decreases n,
{
    if n == 0 {
        g
    } else {
        let before = drop_variants(g, def, tag, (n - 1) as nat);
        let types = def.variants[n - 1].fields;
        if any_heap(types) {
            let g1 = emit(
                before,
                Ins::Cmp(Pred::Eq, Ty::I64, tag, Val::Int((n - 1) as i64)),
            );
            let here = label(g1, Mark::Variant);
            let next = label(g1, Mark::NextVariant);
            let g2 = begin(emit(g1, Ins::CondBr(reg(g1), here, next)), here);
            let g3 = emit(drop_words(g2, 1, types, types.len()), Ins::RetVoid);
            begin(g3, next)
        } else {
            before
        }
    }
}

/// The destructor of an enum: it looks at the tag and releases the heap payload
/// of the live variant.
pub open spec fn drop_enum(def: EnumV) -> Seq<Ins> {
    let g = emit(
        at_entry(Seq::empty(), Seq::empty()),
        Ins::Load(Ty::I64, Val::Param(0)),
    );
    emit(drop_variants(g, def, reg(g), def.variants.len()), Ins::RetVoid).code
}

pub open spec fn drop_name(name: Seq<char>) -> Seq<char> {
    "xia_drop_"@ + name
}

/// A destructor as a function of the module.
pub open spec fn drop_fn(name: Seq<char>, code: Seq<Ins>) -> FnV {
    FnV { name: drop_name(name), params: seq![Ty::Ptr], ret: Ty::Void, internal: true, code }
}

/// The destructors of the first `n` structs, of those that own heap data and
/// whose destructor the program does not define itself.
pub open spec fn struct_drops(symbols: Seq<SymbolV>, structs: Seq<StructV>, n: nat) -> Seq<FnV>
    decreases n,
{
    if n == 0 {
        Seq::empty()
    } else {
        let before = struct_drops(symbols, structs, (n - 1) as nat);
        let def = structs[n - 1];
        if any_heap(field_types(def)) && symbol_index(symbols, drop_name(def.name), 0) is None {
            before.push(drop_fn(def.name, drop_struct(def)))
        } else {
            before
        }
    }
}

/// The destructors of the first `n` enums, of those that own heap data and
/// whose destructor the program does not define itself.
pub open spec fn enum_drops(symbols: Seq<SymbolV>, enums: Seq<EnumV>, n: nat) -> Seq<FnV>
    decreases n,
{
    if n == 0 {
        Seq::empty()
    } else {
        let before = enum_drops(symbols, enums, (n - 1) as nat);
        let def = enums[n - 1];
        if enum_owns(def) && symbol_index(symbols, drop_name(def.name), 0) is None {
            before.push(drop_fn(def.name, drop_enum(def)))
        } else {
            before
        }
    }
}

// ----- names -----------------------------------------------------------------------------------
/// What calls name a function by: a method by its struct and its name.
pub open spec fn function_key(structs: Seq<StructV>, f: FunctionV) -> Seq<char> {
    match f.recv {
        Some(recv) => match recv.ty {
            Type::Struct(id) => if id < structs.len() {
                Function::symbol(structs[id as int].name, f.name)
            } else {
                f.name
            },
            _ => f.name,
        },
        None => f.name,
    }
}

/// The name a function has in the module: `main` makes room for the C entry
/// point.
pub open spec fn function_name(structs: Seq<StructV>, f: FunctionV) -> Seq<char> {
    let key = function_key(structs, f);
    if key == "main"@ {
        "xia_main"@
    } else {
        key
    }
}

pub open spec fn tys_of(types: Seq<Type>) -> Seq<Ty> {
    Seq::new(types.len(), |i: int| ty_of(types[i]))
}

pub open spec fn param_tys(params: Seq<ParamV>) -> Seq<Ty> {
    Seq::new(params.len(), |i: int| ty_of(params[i].ty))
}

pub open spec fn extern_symbol(x: ExternV) -> SymbolV {
    SymbolV {
        name: x.name,
        params: tys_of(x.params),
        varargs: x.varargs,
        ret: x.ret,
        is_extern: true,
    }
}

pub open spec fn function_symbol(structs: Seq<StructV>, f: FunctionV) -> SymbolV {
    SymbolV {
        name: function_name(structs, f),
        params: param_tys(all_params(f)),
        varargs: false,
        ret: f.ret,
        is_extern: false,
    }
}

/// The symbols of a program: foreign functions, then its own.
pub open spec fn symbols_of(p: ProgramV) -> Seq<SymbolV> {
    Seq::new(p.externs.len(), |i: int| extern_symbol(p.externs[i])) + Seq::new(
        p.functions.len(),
        |i: int| function_symbol(p.structs, p.functions[i]),
    )
}

/// What the first `n` symbols are called by.
pub open spec fn callees_of(p: ProgramV, n: nat) -> Map<Seq<char>, usize>
    decreases n,
{
    if n == 0 {
        Map::empty()
    } else {
        let before = callees_of(p, (n - 1) as nat);
        let i = n - 1;
        let key = if i < p.externs.len() {
            p.externs[i].name
        } else {
            function_key(p.structs, p.functions[i - p.externs.len()])
        };
        before.insert(key, i as usize)
    }
}

/// The ids of the first `n` structs, by name.
pub open spec fn struct_ids_of(structs: Seq<StructV>, n: nat) -> Map<Seq<char>, u32>
    decreases n,
{
    if n == 0 {
        Map::empty()
    } else {
        struct_ids_of(structs, (n - 1) as nat).insert(structs[n - 1].name, (n - 1) as u32)
    }
}

/// What lowering needs to know of a program.
pub open spec fn cx_of(p: ProgramV) -> Cx {
    Cx {
        symbols: symbols_of(p),
        callees: callees_of(p, p.externs.len() + p.functions.len()),
        structs: p.structs,
        struct_ids: struct_ids_of(p.structs, p.structs.len()),
        enums: p.enums,
    }
}

/// The position of the first symbol of that name, at or after `i`.
pub open spec fn symbol_index(symbols: Seq<SymbolV>, name: Seq<char>, i: int) -> Option<int>
    decreases symbols.len() - i,
{
    if i < 0 || i >= symbols.len() {
        None
    } else if symbols[i].name == name {
        Some(i)
    } else {
        symbol_index(symbols, name, i + 1)
    }
}

// ----- modules ---------------------------------------------------------------------------------
/// A whole module.
#[verifier::ext_equal]
pub struct ModuleV {
    pub symbols: Seq<SymbolV>,
    pub functions: Seq<FnV>,
    pub lits: Seq<Seq<char>>,
    pub floats: Seq<Seq<char>>,
    /// The names that destructors of structs and enums are called after.
    pub struct_names: Seq<Seq<char>>,
    pub enum_names: Seq<Seq<char>>,
}

/// The first `n` functions of a program, lowered one after the other; string
/// and float literals are shared.
pub open spec fn low_functions(cx: Cx, fs: Seq<FunctionV>, n: nat) -> Result<
    (Seq<FnV>, Seq<Seq<char>>, Seq<Seq<char>>),
    Seq<char>,
>
    decreases n,
{
    if n == 0 {
        Ok((Seq::empty(), Seq::empty(), Seq::empty()))
    } else {
        match low_functions(cx, fs, (n - 1) as nat) {
            Err(m) => Err(m),
            Ok((before, lits, floats)) => match low_function(cx, lits, floats, fs[n - 1]) {
                Err(m) => Err(m),
                Ok(g) => Ok(
                    (before.push(user_fn(cx.structs, fs[n - 1], g.code)), g.lits, g.floats),
                ),
            },
        }
    }
}

/// A function of the program as one of the module.
pub open spec fn user_fn(structs: Seq<StructV>, f: FunctionV, code: Seq<Ins>) -> FnV {
    FnV {
        name: function_name(structs, f),
        params: param_tys(all_params(f)),
        ret: ty_of(f.ret),
        internal: false,
        code,
    }
}

/// The `int main()` shim: it calls `xia_main`, truncating int results to i32.
pub open spec fn c_main(sym: SymbolV, index: usize) -> FnV {
    let call = Ins::Call(ty_of(sym.ret), Callee::Symbol(index), 0);
    FnV {
        name: "main"@,
        params: Seq::empty(),
        ret: Ty::I32,
        internal: false,
        code: if sym.ret == Type::Int {
            seq![
                Ins::Label(entry()),
                call,
                Ins::Convert(Conv::Trunc32, Val::Reg(1)),
                Ins::Ret(Ty::I32, Val::Reg(2)),
            ]
        } else {
            seq![Ins::Label(entry()), call, Ins::Ret(Ty::I32, Val::Int(0))]
        },
    }
}

/// The functions with the C entry point, where there is a `main` to call.
pub open spec fn with_c_main(symbols: Seq<SymbolV>, fns: Seq<FnV>) -> Result<Seq<FnV>, Seq<char>> {
    match symbol_index(symbols, "xia_main"@, 0) {
        None => Ok(fns),
        Some(i) => if symbols[i].params.len() > 0 {
            Err("codegen: `main` must not take parameters"@)
        } else {
            Ok(fns.push(c_main(symbols[i], i as usize)))
        },
    }
}

/// Whether an instruction is a call of a function.
pub open spec fn is_call(i: Ins, c: Callee) -> bool {
    i matches Ins::Call(_, callee, _) && callee == c
}

/// Whether some instructions call a function.
pub open spec fn code_calls(code: Seq<Ins>, c: Callee) -> bool {
    exists|i: int| 0 <= i < code.len() && is_call(#[trigger] code[i], c)
}

/// Whether some functions call a function.
pub open spec fn calls(fns: Seq<FnV>, c: Callee) -> bool {
    exists|i: int| 0 <= i < fns.len() && code_calls((#[trigger] fns[i]).code, c)
}

/// A runtime function as one of the module.
pub open spec fn rt_fn(rt: Rt) -> FnV {
    FnV {
        name: rt_name(rt),
        params: rt_params(rt),
        ret: rt_ret(rt),
        internal: true,
        code: rt_code(rt),
    }
}

/// The functions with those of the first `n` runtime functions that are called
/// and that the program does not define itself.
pub open spec fn with_runtime(symbols: Seq<SymbolV>, fns: Seq<FnV>, n: nat) -> Seq<FnV>
    decreases n,
{
    if n == 0 {
        fns
    } else {
        let before = with_runtime(symbols, fns, (n - 1) as nat);
        let rt = rt_order()[n - 1];
        if calls(before, Callee::Runtime(rt)) && symbol_index(symbols, rt_name(rt), 0) is None {
            before.push(rt_fn(rt))
        } else {
            before
        }
    }
}

/// The names of some structs.
pub open spec fn struct_names(structs: Seq<StructV>) -> Seq<Seq<char>> {
    Seq::new(structs.len(), |i: int| structs[i].name)
}

/// The names of some enums.
pub open spec fn enum_names(enums: Seq<EnumV>) -> Seq<Seq<char>> {
    Seq::new(enums.len(), |i: int| enums[i].name)
}

/// What a program is lowered to: its functions, the destructors, the C entry
/// point, and the part of the runtime that they call.
pub open spec fn lowered(p: ProgramV) -> Result<ModuleV, Seq<char>> {
    let cx = cx_of(p);
    match low_functions(cx, p.functions, p.functions.len()) {
        Err(m) => Err(m),
        Ok((fns, lits, floats)) => {
            let dropped = fns + struct_drops(cx.symbols, p.structs, p.structs.len()) + enum_drops(
                cx.symbols,
                p.enums,
                p.enums.len(),
            );
            match with_c_main(cx.symbols, dropped) {
                Err(m) => Err(m),
                Ok(all) => Ok(
                    ModuleV {
                        symbols: cx.symbols,
                        functions: with_runtime(cx.symbols, all, rt_order().len()),
                        lits,
                        floats,
                        struct_names: struct_names(p.structs),
                        enum_names: enum_names(p.enums),
                    },
                ),
            }
        },
    }
}

} // verus!
