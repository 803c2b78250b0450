//! Modules as LLVM IR text.
use vstd::prelude::*;
use crate::ast::names_v;
use crate::codegen::{have_call, symbols_v, FnCode, Module, Symbol};
use crate::ir::{Callee, Conv, Fixed, Ins, Label, Libc, Mark, Op, Pred, Ty, Val};
use crate::lowering::{calls, drop_name, symbol_index, FnV, ModuleV, SymbolV};
use crate::runtime::{name_of, rt_name};
use crate::text::{
    byte_len, bytes_between, capped, cat2, cat3, cat4, cat5, cat6, cat7, cat8, chars_of, dec,
    dec_i64, dec_int, dec_usize, same,
};

verus! {

// ----- words -------------------------------------------------------------------------------
/// A type.
pub open spec fn ty_text(x: Ty) -> Seq<char> {
    match x {
        Ty::I1 => "i1"@,
        Ty::I8 => "i8"@,
        Ty::I32 => "i32"@,
        Ty::I64 => "i64"@,
        Ty::F64 => "double"@,
        Ty::Ptr => "ptr"@,
        Ty::Void => "void"@,
    }
}

fn show_ty(x: Ty) -> (s: &'static str)
    ensures
        s@ == ty_text(x),
{
    match x {
        Ty::I1 => "i1",
        Ty::I8 => "i8",
        Ty::I32 => "i32",
        Ty::I64 => "i64",
        Ty::F64 => "double",
        Ty::Ptr => "ptr",
        Ty::Void => "void",
    }
}

/// What a block is called after.
pub open spec fn mark_text(x: Mark) -> Seq<char> {
    match x {
        Mark::Entry => "entry"@,
        Mark::Then => "then"@,
        Mark::Else => "else"@,
        Mark::EndIf => "endif"@,
        Mark::LoopCond => "loop.cond"@,
        Mark::LoopBody => "loop.body"@,
        Mark::LoopEnd => "loop.end"@,
        Mark::ForCond => "for.cond"@,
        Mark::ForBody => "for.body"@,
        Mark::ForInc => "for.inc"@,
        Mark::ForEnd => "for.end"@,
        Mark::ForeachCond => "foreach.cond"@,
        Mark::ForeachBody => "foreach.body"@,
        Mark::ForeachInc => "foreach.inc"@,
        Mark::ForeachEnd => "foreach.end"@,
        Mark::ScRhs => "sc.rhs"@,
        Mark::ScEnd => "sc.end"@,
        Mark::Arm => "match.arm"@,
        Mark::NextArm => "match.next"@,
        Mark::MatchEnd => "match.end"@,
        Mark::Check => "check"@,
        Mark::Inc => "inc"@,
        Mark::Dec => "dec"@,
        Mark::Dead => "dead"@,
        Mark::Owner => "owner"@,
        Mark::Drop => "drop"@,
        Mark::Arr => "arr"@,
        Mark::ElemLoop => "elem.loop"@,
        Mark::ElemBody => "elem.body"@,
        Mark::FreeData => "free.data"@,
        Mark::FreeBlock => "free.block"@,
        Mark::Store => "store"@,
        Mark::Done => "done"@,
        Mark::Copy => "copy"@,
        Mark::Null => "null"@,
        Mark::Grow => "grow"@,
        Mark::Retain => "retain"@,
        Mark::Write => "write"@,
        Mark::Trap => "trap"@,
        Mark::Load => "load"@,
        Mark::Swap => "swap"@,
        Mark::Variant => "drop.variant"@,
        Mark::NextVariant => "drop.next"@,
    }
}

fn show_mark(x: Mark) -> (s: &'static str)
    ensures
        s@ == mark_text(x),
{
    match x {
        Mark::Entry => "entry",
        Mark::Then => "then",
        Mark::Else => "else",
        Mark::EndIf => "endif",
        Mark::LoopCond => "loop.cond",
        Mark::LoopBody => "loop.body",
        Mark::LoopEnd => "loop.end",
        Mark::ForCond => "for.cond",
        Mark::ForBody => "for.body",
        Mark::ForInc => "for.inc",
        Mark::ForEnd => "for.end",
        Mark::ForeachCond => "foreach.cond",
        Mark::ForeachBody => "foreach.body",
        Mark::ForeachInc => "foreach.inc",
        Mark::ForeachEnd => "foreach.end",
        Mark::ScRhs => "sc.rhs",
        Mark::ScEnd => "sc.end",
        Mark::Arm => "match.arm",
        Mark::NextArm => "match.next",
        Mark::MatchEnd => "match.end",
        Mark::Check => "check",
        Mark::Inc => "inc",
        Mark::Dec => "dec",
        Mark::Dead => "dead",
        Mark::Owner => "owner",
        Mark::Drop => "drop",
        Mark::Arr => "arr",
        Mark::ElemLoop => "elem.loop",
        Mark::ElemBody => "elem.body",
        Mark::FreeData => "free.data",
        Mark::FreeBlock => "free.block",
        Mark::Store => "store",
        Mark::Done => "done",
        Mark::Copy => "copy",
        Mark::Null => "null",
        Mark::Grow => "grow",
        Mark::Retain => "retain",
        Mark::Write => "write",
        Mark::Trap => "trap",
        Mark::Load => "load",
        Mark::Swap => "swap",
        Mark::Variant => "drop.variant",
        Mark::NextVariant => "drop.next",
    }
}

/// An operation.
pub open spec fn op_text(x: Op) -> Seq<char> {
    match x {
        Op::Add => "add"@,
        Op::Sub => "sub"@,
        Op::Mul => "mul"@,
        Op::SDiv => "sdiv"@,
        Op::SRem => "srem"@,
        Op::FAdd => "fadd"@,
        Op::FSub => "fsub"@,
        Op::FMul => "fmul"@,
        Op::FDiv => "fdiv"@,
        Op::FRem => "frem"@,
        Op::Xor => "xor"@,
    }
}

fn show_op(x: Op) -> (s: &'static str)
    ensures
        s@ == op_text(x),
{
    match x {
        Op::Add => "add",
        Op::Sub => "sub",
        Op::Mul => "mul",
        Op::SDiv => "sdiv",
        Op::SRem => "srem",
        Op::FAdd => "fadd",
        Op::FSub => "fsub",
        Op::FMul => "fmul",
        Op::FDiv => "fdiv",
        Op::FRem => "frem",
        Op::Xor => "xor",
    }
}

/// A comparison.
pub open spec fn pred_text(x: Pred) -> Seq<char> {
    match x {
        Pred::Eq => "icmp eq"@,
        Pred::Ne => "icmp ne"@,
        Pred::Slt => "icmp slt"@,
        Pred::Sle => "icmp sle"@,
        Pred::Sgt => "icmp sgt"@,
        Pred::Sge => "icmp sge"@,
        Pred::Ult => "icmp ult"@,
        Pred::FEq => "fcmp oeq"@,
        Pred::FNe => "fcmp one"@,
        Pred::FLt => "fcmp olt"@,
        Pred::FLe => "fcmp ole"@,
        Pred::FGt => "fcmp ogt"@,
        Pred::FGe => "fcmp oge"@,
    }
}

fn show_pred(x: Pred) -> (s: &'static str)
    ensures
        s@ == pred_text(x),
{
    match x {
        Pred::Eq => "icmp eq",
        Pred::Ne => "icmp ne",
        Pred::Slt => "icmp slt",
        Pred::Sle => "icmp sle",
        Pred::Sgt => "icmp sgt",
        Pred::Sge => "icmp sge",
        Pred::Ult => "icmp ult",
        Pred::FEq => "fcmp oeq",
        Pred::FNe => "fcmp one",
        Pred::FLt => "fcmp olt",
        Pred::FLe => "fcmp ole",
        Pred::FGt => "fcmp ogt",
        Pred::FGe => "fcmp oge",
    }
}

/// A conversion, up to its operand.
pub open spec fn conv_from(x: Conv) -> Seq<char> {
    match x {
        Conv::FloatBits => "bitcast double "@,
        Conv::BitsFloat => "bitcast i64 "@,
        Conv::BoolWord => "zext i1 "@,
        Conv::WordBool => "trunc i64 "@,
        Conv::PtrWord => "ptrtoint ptr "@,
        Conv::WordPtr => "inttoptr i64 "@,
        Conv::Trunc32 => "trunc i64 "@,
        Conv::Sext32 => "sext i32 "@,
    }
}

fn show_conv_from(x: Conv) -> (s: &'static str)
    ensures
        s@ == conv_from(x),
{
    match x {
        Conv::FloatBits => "bitcast double ",
        Conv::BitsFloat => "bitcast i64 ",
        Conv::BoolWord => "zext i1 ",
        Conv::WordBool => "trunc i64 ",
        Conv::PtrWord => "ptrtoint ptr ",
        Conv::WordPtr => "inttoptr i64 ",
        Conv::Trunc32 => "trunc i64 ",
        Conv::Sext32 => "sext i32 ",
    }
}

/// A conversion, behind its operand.
pub open spec fn conv_to(x: Conv) -> Seq<char> {
    match x {
        Conv::FloatBits => " to i64\n"@,
        Conv::BitsFloat => " to double\n"@,
        Conv::BoolWord => " to i64\n"@,
        Conv::WordBool => " to i1\n"@,
        Conv::PtrWord => " to i64\n"@,
        Conv::WordPtr => " to ptr\n"@,
        Conv::Trunc32 => " to i32\n"@,
        Conv::Sext32 => " to i64\n"@,
    }
}

fn show_conv_to(x: Conv) -> (s: &'static str)
    ensures
        s@ == conv_to(x),
{
    match x {
        Conv::FloatBits => " to i64\n",
        Conv::BitsFloat => " to double\n",
        Conv::BoolWord => " to i64\n",
        Conv::WordBool => " to i1\n",
        Conv::PtrWord => " to i64\n",
        Conv::WordPtr => " to ptr\n",
        Conv::Trunc32 => " to i32\n",
        Conv::Sext32 => " to i64\n",
    }
}

/// The name of a C function.
pub open spec fn libc_name(x: Libc) -> Seq<char> {
    match x {
        Libc::Printf => "printf"@,
        Libc::Snprintf => "snprintf"@,
        Libc::Strlen => "strlen"@,
        Libc::Compare => "strcmp"@,
        Libc::Malloc => "malloc"@,
        Libc::Free => "free"@,
        Libc::Exit => "exit"@,
    }
}

fn show_libc(x: Libc) -> (s: &'static str)
    ensures
        s@ == libc_name(x),
{
    match x {
        Libc::Printf => "printf",
        Libc::Snprintf => "snprintf",
        Libc::Strlen => "strlen",
        Libc::Compare => "strcmp",
        Libc::Malloc => "malloc",
        Libc::Free => "free",
        Libc::Exit => "exit",
    }
}

/// The parameter list of a C function.
pub open spec fn libc_params(x: Libc) -> Seq<char> {
    match x {
        Libc::Printf => "ptr, ..."@,
        Libc::Snprintf => "ptr, i64, ptr, ..."@,
        Libc::Strlen => "ptr"@,
        Libc::Compare => "ptr, ptr"@,
        Libc::Malloc => "i64"@,
        Libc::Free => "ptr"@,
        Libc::Exit => "i32"@,
    }
}

fn show_libc_params(x: Libc) -> (s: &'static str)
    ensures
        s@ == libc_params(x),
{
    match x {
        Libc::Printf => "ptr, ...",
        Libc::Snprintf => "ptr, i64, ptr, ...",
        Libc::Strlen => "ptr",
        Libc::Compare => "ptr, ptr",
        Libc::Malloc => "i64",
        Libc::Free => "ptr",
        Libc::Exit => "i32",
    }
}

/// The result type of a C function.
pub open spec fn libc_ret(x: Libc) -> Seq<char> {
    match x {
        Libc::Printf => "i32"@,
        Libc::Snprintf => "i32"@,
        Libc::Strlen => "i64"@,
        Libc::Compare => "i32"@,
        Libc::Malloc => "ptr"@,
        Libc::Free => "void"@,
        Libc::Exit => "void"@,
    }
}

fn show_libc_ret(x: Libc) -> (s: &'static str)
    ensures
        s@ == libc_ret(x),
{
    match x {
        Libc::Printf => "i32",
        Libc::Snprintf => "i32",
        Libc::Strlen => "i64",
        Libc::Compare => "i32",
        Libc::Malloc => "ptr",
        Libc::Free => "void",
        Libc::Exit => "void",
    }
}

/// The global that holds a fixed text.
pub open spec fn fixed_name(x: Fixed) -> Seq<char> {
    match x {
        Fixed::IntFormat => "@str.int"@,
        Fixed::FloatFormat => "@str.float"@,
        Fixed::OutOfBounds => "@str.bounds"@,
    }
}

fn show_fixed(x: Fixed) -> (s: &'static str)
    ensures
        s@ == fixed_name(x),
{
    match x {
        Fixed::IntFormat => "@str.int",
        Fixed::FloatFormat => "@str.float",
        Fixed::OutOfBounds => "@str.bounds",
    }
}

/// A block.
pub open spec fn label_text(l: Label) -> Seq<char> {
    mark_text(l.mark) + dec(l.at as nat)
}

fn show_label(l: Label) -> (s: String)
    ensures
        s@ == label_text(l),
{
    cat2(show_mark(l.mark), dec_usize(l.at).as_str())
}

/// The text with that number, if there is one.
pub open spec fn nth_text(texts: Seq<Seq<char>>, i: int) -> Seq<char> {
    if 0 <= i < texts.len() {
        texts[i]
    } else {
        "undef"@
    }
}

fn nth(texts: &Vec<String>, i: usize) -> (s: String)
    ensures
        s@ == nth_text(names_v(texts@), i as int),
{
    if i < texts.len() {
        texts[i].clone()
    } else {
        String::from_str("undef")
    }
}

/// An operand.
pub open spec fn val_text(m: ModuleV, v: Val) -> Seq<char> {
    match v {
        Val::Reg(n) => "%t"@ + dec(n as nat),
        Val::Param(n) => "%p"@ + dec(n as nat),
        Val::Int(n) => dec_int(n as int),
        Val::Bool(b) => if b {
            "true"@
        } else {
            "false"@
        },
        Val::Float(n) => nth_text(m.floats, n as int),
        Val::Null => "null"@,
        // A string value points past its header.
        Val::Lit(n) => "getelementptr (i8, ptr @str.lit."@ + dec(n as nat) + ", i64 16)"@,
        Val::Fixed(f) => "getelementptr (i8, ptr "@ + fixed_name(f) + ", i64 16)"@,
        Val::DropStruct(id) => "@"@ + drop_name(nth_text(m.struct_names, id as int)),
        Val::DropEnum(id) => "@"@ + drop_name(nth_text(m.enum_names, id as int)),
    }
}

fn show_val(m: &Module, v: Val) -> (s: String)
    ensures
        s@ == val_text(m@, v),
{
    match v {
        Val::Reg(n) => cat2("%t", dec_usize(n).as_str()),
        Val::Param(n) => cat2("%p", dec_usize(n).as_str()),
        Val::Int(n) => dec_i64(n),
        Val::Bool(b) => if b {
            String::from_str("true")
        } else {
            String::from_str("false")
        },
        Val::Float(n) => nth(&m.floats, n),
        Val::Null => String::from_str("null"),
        Val::Lit(n) => cat3(
            "getelementptr (i8, ptr @str.lit.",
            dec_usize(n).as_str(),
            ", i64 16)",
        ),
        Val::Fixed(f) => cat3("getelementptr (i8, ptr ", show_fixed(f), ", i64 16)"),
        Val::DropStruct(id) => {
            let name = cat2("xia_drop_", nth(&m.struct_names, id as usize).as_str());
            cat2("@", name.as_str())
        },
        Val::DropEnum(id) => {
            let name = cat2("xia_drop_", nth(&m.enum_names, id as usize).as_str());
            cat2("@", name.as_str())
        },
    }
}

// ----- calls ---------------------------------------------------------------------------------
/// The first `n` types, with commas between them.
pub open spec fn tys_text(types: Seq<Ty>, n: nat) -> Seq<char>
    decreases n,
{
    if n == 0 {
        Seq::empty()
    } else if n == 1 {
        ty_text(types[0])
    } else {
        tys_text(types, (n - 1) as nat) + ", "@ + ty_text(types[n - 1])
    }
}

fn show_tys(types: &Vec<Ty>) -> (s: String)
    ensures
        s@ == tys_text(types@, types@.len()),
{
    let mut out = String::new();
    let mut i: usize = 0;
    assert(out@ =~= tys_text(types@, 0));
    while i < types.len()
        invariant
            i <= types@.len(),
            out@ == tys_text(types@, i as nat),
        decreases types@.len() - i,
    {
        if i > 0 {
            out.append(", ");
        }
        out.append(show_ty(types[i]));
        assert(out@ =~= tys_text(types@, (i + 1) as nat));
        i = i + 1;
    }
    out
}

/// A parameter list.
pub open spec fn param_list(types: Seq<Ty>, varargs: bool) -> Seq<char> {
    let listed = tys_text(types, types.len());
    if !varargs {
        listed
    } else if types.len() == 0 {
        "..."@
    } else {
        listed + ", ..."@
    }
}

fn show_param_list(types: &Vec<Ty>, varargs: bool) -> (s: String)
    ensures
        s@ == param_list(types@, varargs),
{
    let listed = show_tys(types);
    if !varargs {
        listed
    } else if types.len() == 0 {
        String::from_str("...")
    } else {
        cat2(listed.as_str(), ", ...")
    }
}

/// What a call begins with: the result type, and the whole function type where
/// more arguments than parameters may be passed.
pub open spec fn sig_text(m: ModuleV, ret: Ty, callee: Callee) -> Seq<char> {
    match callee {
        Callee::Symbol(i) => if i < m.symbols.len() && m.symbols[i as int].varargs {
            ty_text(ret) + " ("@ + param_list(m.symbols[i as int].params, true) + ") "@
        } else {
            ty_text(ret) + " "@
        },
        Callee::C(c) => ty_text(ret) + " ("@ + libc_params(c) + ") "@,
        _ => ty_text(ret) + " "@,
    }
}

fn show_sig(m: &Module, ret: Ty, callee: Callee) -> (s: String)
    ensures
        s@ == sig_text(m@, ret, callee),
{
    match callee {
        Callee::Symbol(i) => {
            if i < m.symbols.len() {
                assert(m@.symbols[i as int] == m.symbols@[i as int]@);
                if m.symbols[i].varargs {
                    let list = show_param_list(&m.symbols[i].params, true);
                    return cat4(show_ty(ret), " (", list.as_str(), ") ");
                }
            }
            cat2(show_ty(ret), " ")
        },
        Callee::C(c) => cat4(show_ty(ret), " (", show_libc_params(c), ") "),
        _ => cat2(show_ty(ret), " "),
    }
}

/// Who is called.
pub open spec fn callee_text(m: ModuleV, callee: Callee) -> Seq<char> {
    match callee {
        Callee::Symbol(i) => if i < m.symbols.len() {
            "@"@ + m.symbols[i as int].name
        } else {
            "undef"@
        },
        Callee::Runtime(rt) => "@"@ + rt_name(rt),
        Callee::C(c) => "@"@ + libc_name(c),
        Callee::Pointer(v) => val_text(m, v),
    }
}

fn show_callee(m: &Module, callee: Callee) -> (s: String)
    ensures
        s@ == callee_text(m@, callee),
{
    match callee {
        Callee::Symbol(i) => {
            if i < m.symbols.len() {
                assert(m@.symbols[i as int] == m.symbols@[i as int]@);
                cat2("@", m.symbols[i].name.as_str())
            } else {
                String::from_str("undef")
            }
        },
        Callee::Runtime(rt) => cat2("@", name_of(rt)),
        Callee::C(c) => cat2("@", show_libc(c)),
        Callee::Pointer(v) => show_val(m, v),
    }
}

/// One argument.
pub open spec fn arg_text(m: ModuleV, i: Ins) -> Seq<char> {
    match i {
        Ins::Arg(t, v) => ty_text(t) + " "@ + val_text(m, v),
        _ => Seq::empty(),
    }
}

/// `n` arguments, which stand from position `from` on, with commas between
/// them.
pub open spec fn args_text(m: ModuleV, code: Seq<Ins>, from: int, n: nat) -> Seq<char>
    decreases n,
{
    if n == 0 || from < 0 {
        Seq::empty()
    } else if n == 1 {
        arg_text(m, code[from])
    } else {
        args_text(m, code, from, (n - 1) as nat) + ", "@ + arg_text(m, code[from + n - 1])
    }
}

fn show_args(m: &Module, code: &Vec<Ins>, i: usize, n: usize) -> (s: String)
    requires
        i < code@.len(),
    ensures
        s@ == args_text(m@, code@, i - n, n as nat),
{
    let mut out = String::new();
    assert(out@ =~= Seq::empty());
    if n > i {
        return out;
    }
    let from: usize = i - n;
    let mut k: usize = 0;
    while k < n
        invariant
            k <= n,
            from == i - n,
            i < code@.len(),
            out@ == args_text(m@, code@, from as int, k as nat),
        decreases n - k,
    {
        if k > 0 {
            out.append(", ");
        }
        if let Ins::Arg(t, v) = code[from + k] {
            let arg = cat3(show_ty(t), " ", show_val(m, v).as_str());
            out.append(arg.as_str());
        }
        assert(out@ =~= args_text(m@, code@, from as int, (k + 1) as nat));
        k = k + 1;
    }
    out
}

// ----- instructions --------------------------------------------------------------------------
/// The instruction at position `i`, on a line of its own.
pub open spec fn ins_text(m: ModuleV, code: Seq<Ins>, i: int) -> Seq<char> {
    match code[i] {
        Ins::Label(l) => label_text(l) + ":\n"@,
        Ins::Br(l) => "  br label %"@ + label_text(l) + "\n"@,
        Ins::CondBr(v, a, b) => "  br i1 "@ + val_text(m, v) + ", label %"@ + label_text(a)
            + ", label %"@ + label_text(b) + "\n"@,
        Ins::Ret(t, v) => "  ret "@ + ty_text(t) + " "@ + val_text(m, v) + "\n"@,
        Ins::RetVoid => "  ret void\n"@,
        Ins::Unreachable => "  unreachable\n"@,
        Ins::Alloca(t) => "  %t"@ + dec(i as nat) + " = alloca "@ + ty_text(t) + "\n"@,
        Ins::Store(t, v, p) => "  store "@ + ty_text(t) + " "@ + val_text(m, v) + ", ptr "@
            + val_text(m, p) + "\n"@,
        Ins::Load(t, p) => "  %t"@ + dec(i as nat) + " = load "@ + ty_text(t) + ", ptr "@
            + val_text(m, p) + "\n"@,
        Ins::Bin(op, t, a, b) => "  %t"@ + dec(i as nat) + " = "@ + op_text(op) + " "@ + ty_text(t)
            + " "@ + val_text(m, a) + ", "@ + val_text(m, b) + "\n"@,
        Ins::Cmp(pred, t, a, b) => "  %t"@ + dec(i as nat) + " = "@ + pred_text(pred) + " "@
            + ty_text(t) + " "@ + val_text(m, a) + ", "@ + val_text(m, b) + "\n"@,
        Ins::FNeg(v) => "  %t"@ + dec(i as nat) + " = fneg double "@ + val_text(m, v) + "\n"@,
        Ins::Convert(c, v) => "  %t"@ + dec(i as nat) + " = "@ + conv_from(c) + val_text(m, v)
            + conv_to(c),
        Ins::Select(c, t, a, b) => "  %t"@ + dec(i as nat) + " = select i1 "@ + val_text(m, c)
            + ", "@ + ty_text(t) + " "@ + val_text(m, a) + ", "@ + ty_text(t) + " "@
            + val_text(m, b) + "\n"@,
        Ins::Phi(t, a, la, b, lb) => "  %t"@ + dec(i as nat) + " = phi "@ + ty_text(t) + " [ "@
            + val_text(m, a) + ", %"@ + label_text(la) + " ], [ "@ + val_text(m, b) + ", %"@
            + label_text(lb) + " ]\n"@,
        Ins::Gep(t, p, x) => "  %t"@ + dec(i as nat) + " = getelementptr "@ + ty_text(t) + ", ptr "@
            + val_text(m, p) + ", i64 "@ + val_text(m, x) + "\n"@,
        Ins::Memcpy(d, s, n, al) => "  call void @llvm.memcpy.p0.p0.i64(ptr align "@
            + dec(al as nat) + " "@ + val_text(m, d) + ", ptr align "@ + dec(al as nat) + " "@
            + val_text(m, s) + ", i64 "@ + val_text(m, n) + ", i1 false)\n"@,
        Ins::Arg(..) => Seq::empty(),
        Ins::Call(ret, callee, n) => if ret == Ty::Void {
            "  call "@ + sig_text(m, ret, callee) + callee_text(m, callee) + "("@
                + args_text(m, code, i - n, n as nat) + ")\n"@
        } else {
            "  %t"@ + dec(i as nat) + " = call "@ + sig_text(m, ret, callee)
                + callee_text(m, callee) + "("@ + args_text(m, code, i - n, n as nat) + ")\n"@
        },
    }
}

fn show_ins(m: &Module, code: &Vec<Ins>, i: usize) -> (s: String)
    requires
        i < code@.len(),
    ensures
        s@ == ins_text(m@, code@, i as int),
{
    match code[i] {
        Ins::Label(l) => cat2(show_label(l).as_str(), ":\n"),
        Ins::Br(l) => cat3("  br label %", show_label(l).as_str(), "\n"),
        Ins::CondBr(v, a, b) => cat7("  br i1 ", show_val(m, v).as_str(), ", label %",
            show_label(a).as_str(), ", label %", show_label(b).as_str(), "\n"),
        Ins::Ret(t, v) => cat5("  ret ", show_ty(t), " ", show_val(m, v).as_str(), "\n"),
        Ins::RetVoid => String::from_str("  ret void\n"),
        Ins::Unreachable => String::from_str("  unreachable\n"),
        Ins::Alloca(t) => cat5("  %t", dec_usize(i).as_str(), " = alloca ", show_ty(t), "\n"),
        Ins::Store(t, v, p) => cat7("  store ", show_ty(t), " ", show_val(m, v).as_str(), ", ptr ",
            show_val(m, p).as_str(), "\n"),
        Ins::Load(t, p) => cat7("  %t", dec_usize(i).as_str(), " = load ", show_ty(t), ", ptr ",
            show_val(m, p).as_str(), "\n"),
        Ins::Bin(op, t, a,
            b) => cat4(cat8("  %t", dec_usize(i).as_str(), " = ", show_op(op), " ", show_ty(t), " ",
            show_val(m, a).as_str()).as_str(), ", ", show_val(m, b).as_str(), "\n"),
        Ins::Cmp(pred, t, a,
            b) => cat4(cat8("  %t", dec_usize(i).as_str(), " = ", show_pred(pred), " ", show_ty(t),
            " ", show_val(m, a).as_str()).as_str(), ", ", show_val(m, b).as_str(), "\n"),
        Ins::FNeg(v) => cat5("  %t", dec_usize(i).as_str(), " = fneg double ",
            show_val(m, v).as_str(), "\n"),
        Ins::Convert(c, v) => cat6("  %t", dec_usize(i).as_str(), " = ", show_conv_from(c),
            show_val(m, v).as_str(), show_conv_to(c)),
        Ins::Select(c, t, a,
            b) => cat6(cat8("  %t", dec_usize(i).as_str(), " = select i1 ", show_val(m, c).as_str(),
            ", ", show_ty(t), " ", show_val(m, a).as_str()).as_str(), ", ", show_ty(t), " ",
            show_val(m, b).as_str(), "\n"),
        Ins::Phi(t, a, la, b,
            lb) => cat6(cat8("  %t", dec_usize(i).as_str(), " = phi ", show_ty(t), " [ ",
            show_val(m, a).as_str(), ", %", show_label(la).as_str()).as_str(), " ], [ ",
            show_val(m, b).as_str(), ", %", show_label(lb).as_str(), " ]\n"),
        Ins::Gep(t, p,
            x) => cat2(cat8("  %t", dec_usize(i).as_str(), " = getelementptr ", show_ty(t),
            ", ptr ", show_val(m, p).as_str(), ", i64 ", show_val(m, x).as_str()).as_str(), "\n"),
        Ins::Memcpy(d, s, n,
            al) => cat4(cat8("  call void @llvm.memcpy.p0.p0.i64(ptr align ",
            dec_usize(al).as_str(), " ", show_val(m, d).as_str(), ", ptr align ",
            dec_usize(al).as_str(), " ", show_val(m, s).as_str()).as_str(), ", i64 ",
            show_val(m, n).as_str(), ", i1 false)\n"),
        Ins::Arg(_, _) => {
            let s = String::new();
            assert(s@ =~= Seq::empty());
            s
        },
        Ins::Call(ret, callee, n) => if ret == Ty::Void {
            cat6("  call ", show_sig(m, ret, callee).as_str(), show_callee(m, callee).as_str(), "(",
                show_args(m, code, i, n).as_str(), ")\n")
        } else {
            cat8("  %t", dec_usize(i).as_str(), " = call ", show_sig(m, ret, callee).as_str(),
                show_callee(m, callee).as_str(), "(", show_args(m, code, i, n).as_str(), ")\n")
        },
    }
}

/// The first `n` instructions.
pub open spec fn code_text(m: ModuleV, code: Seq<Ins>, n: nat) -> Seq<char>
    decreases n,
{
    if n == 0 {
        Seq::empty()
    } else {
        code_text(m, code, (n - 1) as nat) + ins_text(m, code, n - 1)
    }
}

fn show_code(m: &Module, code: &Vec<Ins>) -> (s: String)
    ensures
        s@ == code_text(m@, code@, code@.len()),
{
    let mut out = String::new();
    let mut i: usize = 0;
    assert(out@ =~= Seq::empty());
    while i < code.len()
        invariant
            i <= code@.len(),
            out@ == code_text(m@, code@, i as nat),
        decreases code@.len() - i,
    {
        let line = show_ins(m, code, i);
        out.append(line.as_str());
        i = i + 1;
    }
    out
}

// ----- functions -----------------------------------------------------------------------------
/// The first `n` parameters of a definition, with commas between them.
pub open spec fn formals_text(params: Seq<Ty>, n: nat) -> Seq<char>
    decreases n,
{
    if n == 0 {
        Seq::empty()
    } else if n == 1 {
        ty_text(params[0]) + " %p"@ + dec(0)
    } else {
        formals_text(params, (n - 1) as nat) + ", "@ + (ty_text(params[n - 1]) + " %p"@ + dec(
            (n - 1) as nat,
        ))
    }
}

fn show_formals(params: &Vec<Ty>) -> (s: String)
    ensures
        s@ == formals_text(params@, params@.len()),
{
    let mut out = String::new();
    let mut i: usize = 0;
    assert(out@ =~= Seq::empty());
    while i < params.len()
        invariant
            i <= params@.len(),
            out@ == formals_text(params@, i as nat),
        decreases params@.len() - i,
    {
        if i > 0 {
            out.append(", ");
        }
        let one = cat3(show_ty(params[i]), " %p", dec_usize(i).as_str());
        out.append(one.as_str());
        assert(out@ =~= formals_text(params@, (i + 1) as nat));
        i = i + 1;
    }
    out
}

/// A function.
pub open spec fn fn_text(m: ModuleV, f: FnV) -> Seq<char> {
    (if f.internal {
        "define internal "@
    } else {
        "define "@
    }) + ty_text(f.ret) + " @"@ + f.name + "("@ + formals_text(f.params, f.params.len()) + ") {\n"@
        + code_text(m, f.code, f.code.len()) + "}\n\n"@
}

fn show_fn(m: &Module, f: &FnCode) -> (s: String)
    ensures
        s@ == fn_text(m@, f@),
{
    let lead = if f.internal {
        "define internal "
    } else {
        "define "
    };
    let head = cat7(
        lead,
        show_ty(f.ret),
        " @",
        f.name.as_str(),
        "(",
        show_formals(&f.params).as_str(),
        ") {\n",
    );
    cat3(head.as_str(), show_code(m, &f.code).as_str(), "}\n\n")
}

/// The first `n` functions.
pub open spec fn fns_text(m: ModuleV, n: nat) -> Seq<char>
    decreases n,
{
    if n == 0 {
        Seq::empty()
    } else {
        fns_text(m, (n - 1) as nat) + fn_text(m, m.functions[n - 1])
    }
}

/// A foreign function.
pub open spec fn declare_text(sym: SymbolV) -> Seq<char> {
    "declare "@ + ty_text(crate::lowering::ty_of(sym.ret)) + " @"@ + sym.name + "("@ + param_list(
        sym.params,
        sym.varargs,
    ) + ")\n"@
}

/// The foreign functions among the first `n` symbols.
pub open spec fn externs_text(symbols: Seq<SymbolV>, n: nat) -> Seq<char>
    decreases n,
{
    if n == 0 {
        Seq::empty()
    } else {
        let before = externs_text(symbols, (n - 1) as nat);
        if symbols[n - 1].is_extern {
            before + declare_text(symbols[n - 1])
        } else {
            before
        }
    }
}

fn show_externs(symbols: &Vec<Symbol>) -> (s: String)
    ensures
        s@ == externs_text(symbols_v(symbols@), symbols@.len()),
{
    let mut out = String::new();
    let mut i: usize = 0;
    assert(out@ =~= Seq::empty());
    while i < symbols.len()
        invariant
            i <= symbols@.len(),
            out@ == externs_text(symbols_v(symbols@), i as nat),
        decreases symbols@.len() - i,
    {
        let sym = &symbols[i];
        assert(symbols_v(symbols@)[i as int] == sym@);
        if sym.is_extern {
            let line = cat7(
                "declare ",
                show_ty(crate::codegen::basic_type(sym.ret)),
                " @",
                sym.name.as_str(),
                "(",
                show_param_list(&sym.params, sym.varargs).as_str(),
                ")\n",
            );
            out.append(line.as_str());
        }
        i = i + 1;
    }
    out
}

/// A C function, where it is called and the program does not declare it
/// itself; a call through a type of its own goes to the program's
/// declaration otherwise.
pub open spec fn libc_text(m: ModuleV, c: Libc) -> Seq<char> {
    if calls(m.functions, Callee::C(c)) && symbol_index(m.symbols, libc_name(c), 0) is None {
        "declare "@ + libc_ret(c) + " @"@ + libc_name(c) + "("@ + libc_params(c) + ")\n"@
    } else {
        Seq::empty()
    }
}

fn show_libc_decl(m: &Module, c: Libc) -> (s: String)
    ensures
        s@ == libc_text(m@, c),
{
    if have_call(&m.functions, Callee::C(c)) && !declares(&m.symbols, show_libc(c)) {
        cat7("declare ", show_libc_ret(c), " @", show_libc(c), "(", show_libc_params(c), ")\n")
    } else {
        let s = String::new();
        assert(s@ =~= Seq::empty());
        s
    }
}

/// Whether a symbol has that name.
fn declares(symbols: &Vec<Symbol>, name: &str) -> (b: bool)
    ensures
        b == (symbol_index(symbols_v(symbols@), name@, 0) is Some),
{
    let mut i: usize = 0;
    while i < symbols.len()
        invariant
            i <= symbols@.len(),
            symbol_index(symbols_v(symbols@), name@, 0) == symbol_index(
                symbols_v(symbols@),
                name@,
                i as int,
            ),
        decreases symbols@.len() - i,
    {
        assert(symbols_v(symbols@)[i as int] == symbols@[i as int]@);
        if same(symbols[i].name.as_str(), name) {
            return true;
        }
        i = i + 1;
    }
    false
}

// ----- string constants ------------------------------------------------------------------------
/// A hexadecimal digit.
pub open spec fn hex_digit(d: nat) -> char {
    if d < 10 {
        (48 + d) as char
    } else {
        (55 + d) as char
    }
}

fn hex_char(d: u32) -> (c: char)
    requires
        d < 16,
    ensures
        c == hex_digit(d as nat),
{
    match d {
        0 => '0',
        1 => '1',
        2 => '2',
        3 => '3',
        4 => '4',
        5 => '5',
        6 => '6',
        7 => '7',
        8 => '8',
        9 => '9',
        10 => 'A',
        11 => 'B',
        12 => 'C',
        13 => 'D',
        14 => 'E',
        _ => 'F',
    }
}

/// A byte as an escape.
pub open spec fn escape_byte(b: nat) -> Seq<char> {
    seq!['\\', hex_digit(b / 16), hex_digit(b % 16)]
}

fn push_byte(out: &mut String, b: u32)
    requires
        b < 256,
    ensures
        final(out)@ == old(out)@ + escape_byte(b as nat),
{
    out.push('\\');
    out.push(hex_char(b / 16));
    out.push(hex_char(b % 16));
    assert(out@ =~= old(out)@ + escape_byte(b as nat));
}

/// A character inside a string constant: printable ASCII stands for itself, a
/// quote, a backslash and everything else for the bytes of its UTF-8 form.
pub open spec fn escape_char(c: char) -> Seq<char> {
    let n = c as u32 as nat;
    if n < 0x80 {
        if 0x20 <= n < 0x7f && c != '"' && c != '\\' {
            seq![c]
        } else {
            escape_byte(n)
        }
    } else if n < 0x800 {
        escape_byte(0xc0 + n / 64) + escape_byte(0x80 + n % 64)
    } else if n < 0x10000 {
        escape_byte(0xe0 + n / 4096) + escape_byte(0x80 + (n / 64) % 64) + escape_byte(
            0x80 + n % 64,
        )
    } else {
        escape_byte(0xf0 + n / 262144) + escape_byte(0x80 + (n / 4096) % 64) + escape_byte(
            0x80 + (n / 64) % 64,
        ) + escape_byte(0x80 + n % 64)
    }
}

fn push_escaped(out: &mut String, c: char)
    ensures
        final(out)@ == old(out)@ + escape_char(c),
{
    let ghost before = out@;
    let n: u32 = c as u32;
    if n < 0x80 {
        if 0x20 <= n && n < 0x7f && c != '"' && c != '\\' {
            out.push(c);
        } else {
            push_byte(out, n);
        }
    } else if n < 0x800 {
        push_byte(out, 0xc0 + n / 64);
        push_byte(out, 0x80 + n % 64);
    } else if n < 0x10000 {
        push_byte(out, 0xe0 + n / 4096);
        push_byte(out, 0x80 + (n / 64) % 64);
        push_byte(out, 0x80 + n % 64);
    } else {
        push_byte(out, 0xf0 + n / 262144);
        push_byte(out, 0x80 + (n / 4096) % 64);
        push_byte(out, 0x80 + (n / 64) % 64);
        push_byte(out, 0x80 + n % 64);
    }
    assert(out@ =~= before + escape_char(c));
}

/// The first `n` characters of a string constant.
pub open spec fn escaped(s: Seq<char>, n: nat) -> Seq<char>
    decreases n,
{
    if n == 0 {
        Seq::empty()
    } else {
        escaped(s, (n - 1) as nat) + escape_char(s[n - 1])
    }
}

/// An immortal string: a private constant global laid out as
/// `{ i64 kind, i64 -1, [n x i8] }`, the bytes ending in a NUL.
pub open spec fn constant_text(name: Seq<char>, s: Seq<char>) -> Seq<char> {
    let bytes = s.push('\0');
    let size = dec(capped(byte_len(bytes) as int) as nat);
    name + " = private constant { i64, i64, ["@ + size + " x i8] } { i64 0, i64 -1, ["@ + size
        + " x i8] c\""@ + escaped(bytes, bytes.len()) + "\" }\n"@
}

fn show_constant(name: &str, s: &str) -> (t: String)
    ensures
        t@ == constant_text(name@, s@),
{
    let mut chars = chars_of(s);
    chars.push('\0');
    let ghost bytes = s@.push('\0');
    assert(chars@ =~= bytes);
    assert(chars@.subrange(0, chars@.len() as int) =~= bytes);
    let size = dec_usize(bytes_between(&chars, 0, chars.len()));
    let mut body = String::new();
    let mut i: usize = 0;
    assert(body@ =~= Seq::empty());
    while i < chars.len()
        invariant
            i <= chars@.len(),
            chars@ == bytes,
            body@ == escaped(bytes, i as nat),
        decreases chars@.len() - i,
    {
        push_escaped(&mut body, chars[i]);
        i = i + 1;
    }
    cat8(
        name,
        " = private constant { i64, i64, [",
        size.as_str(),
        " x i8] } { i64 0, i64 -1, [",
        size.as_str(),
        " x i8] c\"",
        body.as_str(),
        "\" }\n",
    )
}

/// The first `n` string literals.
pub open spec fn lits_text(lits: Seq<Seq<char>>, n: nat) -> Seq<char>
    decreases n,
{
    if n == 0 {
        Seq::empty()
    } else {
        lits_text(lits, (n - 1) as nat) + constant_text(
            "@str.lit."@ + dec((n - 1) as nat),
            lits[n - 1],
        )
    }
}

fn show_lits(lits: &Vec<String>) -> (s: String)
    ensures
        s@ == lits_text(names_v(lits@), lits@.len()),
{
    let mut out = String::new();
    let mut i: usize = 0;
    assert(out@ =~= Seq::empty());
    while i < lits.len()
        invariant
            i <= lits@.len(),
            out@ == lits_text(names_v(lits@), i as nat),
        decreases lits@.len() - i,
    {
        let name = cat2("@str.lit.", dec_usize(i).as_str());
        let line = show_constant(name.as_str(), lits[i].as_str());
        out.append(line.as_str());
        i = i + 1;
    }
    out
}

/// The fixed texts of the runtime.
pub open spec fn fixed_text() -> Seq<char> {
    constant_text(fixed_name(Fixed::IntFormat), "%lld"@) + constant_text(
        fixed_name(Fixed::FloatFormat),
        "%g"@,
    ) + constant_text(
        fixed_name(Fixed::OutOfBounds),
        "xia: index %lld out of bounds for array of length %lld\n"@,
    )
}

fn show_fixed_texts() -> (s: String)
    ensures
        s@ == fixed_text(),
{
    let a = show_constant(show_fixed(Fixed::IntFormat), "%lld");
    let b = show_constant(show_fixed(Fixed::FloatFormat), "%g");
    let c = show_constant(
        show_fixed(Fixed::OutOfBounds),
        "xia: index %lld out of bounds for array of length %lld\n",
    );
    cat3(a.as_str(), b.as_str(), c.as_str())
}

// ----- modules ---------------------------------------------------------------------------------
/// What every module begins with.
pub open spec fn preamble() -> Seq<char> {
    "; ModuleID = 'xia'\nsource_filename = \"xia\"\n\ndeclare void @llvm.memcpy.p0.p0.i64(ptr, ptr, i64, i1)\n"@
}

/// The declarations of C functions.
pub open spec fn all_libc_text(m: ModuleV) -> Seq<char> {
    libc_text(m, Libc::Printf) + libc_text(m, Libc::Snprintf) + libc_text(m, Libc::Strlen)
        + libc_text(m, Libc::Compare) + libc_text(m, Libc::Malloc) + libc_text(m, Libc::Free)
        + libc_text(m, Libc::Exit)
}

/// A module as LLVM IR text: constants, declarations, functions.
pub open spec fn module_text(m: ModuleV) -> Seq<char> {
    preamble() + all_libc_text(m) + externs_text(m.symbols, m.symbols.len()) + fixed_text()
        + lits_text(m.lits, m.lits.len()) + "\n"@ + fns_text(m, m.functions.len())
}

impl Module {
    /// The module as LLVM IR text.
    pub fn to_text(&self) -> (s: String)
        ensures
            s@ == module_text(self@),
    {
        let libc = cat7(
            show_libc_decl(self, Libc::Printf).as_str(),
            show_libc_decl(self, Libc::Snprintf).as_str(),
            show_libc_decl(self, Libc::Strlen).as_str(),
            show_libc_decl(self, Libc::Compare).as_str(),
            show_libc_decl(self, Libc::Malloc).as_str(),
            show_libc_decl(self, Libc::Free).as_str(),
            show_libc_decl(self, Libc::Exit).as_str(),
        );
        let mut functions = String::new();
        let mut i: usize = 0;
        assert(functions@ =~= Seq::empty());
        while i < self.functions.len()
            invariant
                i <= self.functions@.len(),
                functions@ == fns_text(self@, i as nat),
            decreases self.functions@.len() - i,
        {
            assert(self@.functions[i as int] == self.functions@[i as int]@);
            let f = show_fn(self, &self.functions[i]);
            functions.append(f.as_str());
            i = i + 1;
        }
        cat7(
            "; ModuleID = 'xia'\nsource_filename = \"xia\"\n\ndeclare void @llvm.memcpy.p0.p0.i64(ptr, ptr, i64, i1)\n",
            libc.as_str(),
            show_externs(&self.symbols).as_str(),
            show_fixed_texts().as_str(),
            show_lits(&self.lits).as_str(),
            "\n",
            functions.as_str(),
        )
    }
}

} // verus!
