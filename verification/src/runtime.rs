//! The ARC, string and array runtime, built directly in IR.
//!
//! `xia_retain`/`xia_release` are null-safe and skip immortals. Arrays retain
//! their heap elements; the element buffer holds 8-byte words.
use vstd::prelude::*;
use crate::ir::{Callee, Conv, Fixed, Ins, Label, Libc, Mark, Op, Pred, Rt, Ty, Val};

verus! {

/// `xia_retain(p)`: one more reference, unless `p` is null or immortal.
#[verifier::opaque]
pub open spec fn retain_code() -> Seq<Ins> {
    seq![
        Ins::Label(Label { mark: Mark::Entry, at: 0 }),
        Ins::Cmp(Pred::Eq, Ty::Ptr, Val::Param(0), Val::Null),
        Ins::CondBr(Val::Reg(1), Label { mark: Mark::Done, at: 0 },
            Label { mark: Mark::Check, at: 0 }),
        Ins::Label(Label { mark: Mark::Check, at: 0 }),
        Ins::Gep(Ty::I8, Val::Param(0), Val::Int(-8 as i64)),
        Ins::Load(Ty::I64, Val::Reg(4)),
        Ins::Cmp(Pred::Slt, Ty::I64, Val::Reg(5), Val::Int(0)),
        Ins::CondBr(Val::Reg(6), Label { mark: Mark::Done, at: 0 },
            Label { mark: Mark::Inc, at: 0 }),
        Ins::Label(Label { mark: Mark::Inc, at: 0 }),
        Ins::Bin(Op::Add, Ty::I64, Val::Reg(5), Val::Int(1)),
        Ins::Store(Ty::I64, Val::Reg(9), Val::Reg(4)),
        Ins::Br(Label { mark: Mark::Done, at: 0 }),
        Ins::Label(Label { mark: Mark::Done, at: 0 }),
        Ins::RetVoid,
    ]
}

/// `xia_release(p)`: one reference less, unless `p` is null or immortal. A dead
/// value goes: arrays free their element buffer (releasing each element first if
/// they are heap values), structs and enums that own heap data are handed to
/// their destructor; then the block is freed.
#[verifier::opaque]
pub open spec fn release_code() -> Seq<Ins> {
    seq![
        Ins::Label(Label { mark: Mark::Entry, at: 0 }),
        Ins::Cmp(Pred::Eq, Ty::Ptr, Val::Param(0), Val::Null),
        Ins::CondBr(Val::Reg(1), Label { mark: Mark::Done, at: 0 },
            Label { mark: Mark::Check, at: 0 }),
        Ins::Label(Label { mark: Mark::Check, at: 0 }),
        Ins::Gep(Ty::I8, Val::Param(0), Val::Int(-8 as i64)),
        Ins::Load(Ty::I64, Val::Reg(4)),
        Ins::Cmp(Pred::Slt, Ty::I64, Val::Reg(5), Val::Int(0)),
        Ins::CondBr(Val::Reg(6), Label { mark: Mark::Done, at: 0 },
            Label { mark: Mark::Dec, at: 0 }),
        Ins::Label(Label { mark: Mark::Dec, at: 0 }),
        Ins::Bin(Op::Sub, Ty::I64, Val::Reg(5), Val::Int(1)),
        Ins::Cmp(Pred::Eq, Ty::I64, Val::Reg(9), Val::Int(0)),
        Ins::CondBr(Val::Reg(10), Label { mark: Mark::Dead, at: 0 },
            Label { mark: Mark::Store, at: 0 }),
        Ins::Label(Label { mark: Mark::Dead, at: 0 }),
        Ins::Gep(Ty::I8, Val::Param(0), Val::Int(-16 as i64)),
        Ins::Load(Ty::I64, Val::Reg(13)),
        Ins::Cmp(Pred::Eq, Ty::I64, Val::Reg(14), Val::Int(0)),
        Ins::CondBr(Val::Reg(15), Label { mark: Mark::FreeBlock, at: 0 },
            Label { mark: Mark::Owner, at: 0 }),
        Ins::Label(Label { mark: Mark::Owner, at: 0 }),
        Ins::Cmp(Pred::Ult, Ty::I64, Val::Reg(14), Val::Int(3)),
        Ins::CondBr(Val::Reg(18), Label { mark: Mark::Arr, at: 0 },
            Label { mark: Mark::Drop, at: 0 }),
        Ins::Label(Label { mark: Mark::Drop, at: 0 }),
        Ins::Convert(Conv::WordPtr, Val::Reg(14)),
        Ins::Arg(Ty::Ptr, Val::Param(0)),
        Ins::Call(Ty::Void, Callee::Pointer(Val::Reg(21)), 1),
        Ins::Br(Label { mark: Mark::FreeBlock, at: 0 }),
        Ins::Label(Label { mark: Mark::Arr, at: 0 }),
        Ins::Load(Ty::I64, Val::Param(0)),
        Ins::Gep(Ty::I8, Val::Param(0), Val::Int(16)),
        Ins::Load(Ty::Ptr, Val::Reg(27)),
        Ins::Cmp(Pred::Eq, Ty::I64, Val::Reg(14), Val::Int(2)),
        Ins::CondBr(Val::Reg(29), Label { mark: Mark::ElemLoop, at: 0 },
            Label { mark: Mark::FreeData, at: 0 }),
        Ins::Label(Label { mark: Mark::ElemLoop, at: 0 }),
        Ins::Phi(Ty::I64, Val::Int(0), Label { mark: Mark::Arr, at: 0 }, Val::Reg(41),
            Label { mark: Mark::ElemBody, at: 0 }),
        Ins::Cmp(Pred::Slt, Ty::I64, Val::Reg(32), Val::Reg(26)),
        Ins::CondBr(Val::Reg(33), Label { mark: Mark::ElemBody, at: 0 },
            Label { mark: Mark::FreeData, at: 0 }),
        Ins::Label(Label { mark: Mark::ElemBody, at: 0 }),
        Ins::Gep(Ty::I64, Val::Reg(28), Val::Reg(32)),
        Ins::Load(Ty::I64, Val::Reg(36)),
        Ins::Convert(Conv::WordPtr, Val::Reg(37)),
        Ins::Arg(Ty::Ptr, Val::Reg(38)),
        Ins::Call(Ty::Void, Callee::Runtime(Rt::Release), 1),
        Ins::Bin(Op::Add, Ty::I64, Val::Reg(32), Val::Int(1)),
        Ins::Br(Label { mark: Mark::ElemLoop, at: 0 }),
        Ins::Label(Label { mark: Mark::FreeData, at: 0 }),
        Ins::Arg(Ty::Ptr, Val::Reg(28)),
        Ins::Call(Ty::Void, Callee::C(Libc::Free), 1),
        Ins::Br(Label { mark: Mark::FreeBlock, at: 0 }),
        Ins::Label(Label { mark: Mark::FreeBlock, at: 0 }),
        Ins::Arg(Ty::Ptr, Val::Reg(13)),
        Ins::Call(Ty::Void, Callee::C(Libc::Free), 1),
        Ins::Br(Label { mark: Mark::Done, at: 0 }),
        Ins::Label(Label { mark: Mark::Store, at: 0 }),
        Ins::Store(Ty::I64, Val::Reg(9), Val::Reg(4)),
        Ins::Br(Label { mark: Mark::Done, at: 0 }),
        Ins::Label(Label { mark: Mark::Done, at: 0 }),
        Ins::RetVoid,
    ]
}

/// `xia_alloc_str(len) -> ptr`: a block for `len` bytes of payload (+ header +
/// NUL) with refcount 1; the payload pointer.
#[verifier::opaque]
pub open spec fn alloc_str_code() -> Seq<Ins> {
    seq![
        Ins::Label(Label { mark: Mark::Entry, at: 0 }),
        Ins::Bin(Op::Add, Ty::I64, Val::Param(0), Val::Int(17)),
        Ins::Arg(Ty::I64, Val::Reg(1)),
        Ins::Call(Ty::Ptr, Callee::C(Libc::Malloc), 1),
        Ins::Store(Ty::I64, Val::Int(0), Val::Reg(3)),
        Ins::Gep(Ty::I8, Val::Reg(3), Val::Int(8)),
        Ins::Store(Ty::I64, Val::Int(1), Val::Reg(5)),
        Ins::Gep(Ty::I8, Val::Reg(3), Val::Int(16)),
        Ins::Ret(Ty::Ptr, Val::Reg(7)),
    ]
}

/// `xia_str_concat(a, b) -> ptr`: a fresh string of both texts.
#[verifier::opaque]
pub open spec fn str_concat_code() -> Seq<Ins> {
    seq![
        Ins::Label(Label { mark: Mark::Entry, at: 0 }),
        Ins::Arg(Ty::Ptr, Val::Param(0)),
        Ins::Call(Ty::I64, Callee::C(Libc::Strlen), 1),
        Ins::Arg(Ty::Ptr, Val::Param(1)),
        Ins::Call(Ty::I64, Callee::C(Libc::Strlen), 1),
        Ins::Bin(Op::Add, Ty::I64, Val::Reg(2), Val::Reg(4)),
        Ins::Arg(Ty::I64, Val::Reg(5)),
        Ins::Call(Ty::Ptr, Callee::Runtime(Rt::AllocStr), 1),
        Ins::Memcpy(Val::Reg(7), Val::Param(0), Val::Reg(2), 1),
        Ins::Gep(Ty::I8, Val::Reg(7), Val::Reg(2)),
        Ins::Memcpy(Val::Reg(9), Val::Param(1), Val::Reg(4), 1),
        Ins::Gep(Ty::I8, Val::Reg(9), Val::Reg(4)),
        Ins::Store(Ty::I8, Val::Int(0), Val::Reg(11)),
        Ins::Ret(Ty::Ptr, Val::Reg(7)),
    ]
}

/// `xia_str_dup(p) -> ptr`: a foreign C string copied into a fresh Xia string
/// (null-safe).
#[verifier::opaque]
pub open spec fn str_dup_code() -> Seq<Ins> {
    seq![
        Ins::Label(Label { mark: Mark::Entry, at: 0 }),
        Ins::Cmp(Pred::Eq, Ty::Ptr, Val::Param(0), Val::Null),
        Ins::CondBr(Val::Reg(1), Label { mark: Mark::Null, at: 0 },
            Label { mark: Mark::Copy, at: 0 }),
        Ins::Label(Label { mark: Mark::Null, at: 0 }),
        Ins::Ret(Ty::Ptr, Val::Null),
        Ins::Label(Label { mark: Mark::Copy, at: 0 }),
        Ins::Arg(Ty::Ptr, Val::Param(0)),
        Ins::Call(Ty::I64, Callee::C(Libc::Strlen), 1),
        Ins::Arg(Ty::I64, Val::Reg(7)),
        Ins::Call(Ty::Ptr, Callee::Runtime(Rt::AllocStr), 1),
        Ins::Bin(Op::Add, Ty::I64, Val::Reg(7), Val::Int(1)),
        Ins::Memcpy(Val::Reg(9), Val::Param(0), Val::Reg(10), 1),
        Ins::Ret(Ty::Ptr, Val::Reg(9)),
    ]
}

/// `xia_str_eq(a, b) -> i1`: whether two strings hold the same text.
#[verifier::opaque]
pub open spec fn str_eq_code() -> Seq<Ins> {
    seq![
        Ins::Label(Label { mark: Mark::Entry, at: 0 }),
        Ins::Arg(Ty::Ptr, Val::Param(0)),
        Ins::Arg(Ty::Ptr, Val::Param(1)),
        Ins::Call(Ty::I32, Callee::C(Libc::Compare), 2),
        Ins::Cmp(Pred::Eq, Ty::I32, Val::Reg(3), Val::Int(0)),
        Ins::Ret(Ty::I1, Val::Reg(4)),
    ]
}

/// `xia_int_to_str(v) -> ptr`: number-to-string via two-pass snprintf: measure,
/// allocate, format.
#[verifier::opaque]
pub open spec fn int_to_str_code() -> Seq<Ins> {
    seq![
        Ins::Label(Label { mark: Mark::Entry, at: 0 }),
        Ins::Arg(Ty::Ptr, Val::Null),
        Ins::Arg(Ty::I64, Val::Int(0)),
        Ins::Arg(Ty::Ptr, Val::Fixed(Fixed::IntFormat)),
        Ins::Arg(Ty::I64, Val::Param(0)),
        Ins::Call(Ty::I32, Callee::C(Libc::Snprintf), 4),
        Ins::Convert(Conv::Sext32, Val::Reg(5)),
        Ins::Arg(Ty::I64, Val::Reg(6)),
        Ins::Call(Ty::Ptr, Callee::Runtime(Rt::AllocStr), 1),
        Ins::Bin(Op::Add, Ty::I64, Val::Reg(6), Val::Int(1)),
        Ins::Arg(Ty::Ptr, Val::Reg(8)),
        Ins::Arg(Ty::I64, Val::Reg(9)),
        Ins::Arg(Ty::Ptr, Val::Fixed(Fixed::IntFormat)),
        Ins::Arg(Ty::I64, Val::Param(0)),
        Ins::Call(Ty::I32, Callee::C(Libc::Snprintf), 4),
        Ins::Ret(Ty::Ptr, Val::Reg(8)),
    ]
}

/// `xia_float_to_str(v) -> ptr`: number-to-string via two-pass snprintf: measure,
/// allocate, format.
#[verifier::opaque]
pub open spec fn float_to_str_code() -> Seq<Ins> {
    seq![
        Ins::Label(Label { mark: Mark::Entry, at: 0 }),
        Ins::Arg(Ty::Ptr, Val::Null),
        Ins::Arg(Ty::I64, Val::Int(0)),
        Ins::Arg(Ty::Ptr, Val::Fixed(Fixed::FloatFormat)),
        Ins::Arg(Ty::F64, Val::Param(0)),
        Ins::Call(Ty::I32, Callee::C(Libc::Snprintf), 4),
        Ins::Convert(Conv::Sext32, Val::Reg(5)),
        Ins::Arg(Ty::I64, Val::Reg(6)),
        Ins::Call(Ty::Ptr, Callee::Runtime(Rt::AllocStr), 1),
        Ins::Bin(Op::Add, Ty::I64, Val::Reg(6), Val::Int(1)),
        Ins::Arg(Ty::Ptr, Val::Reg(8)),
        Ins::Arg(Ty::I64, Val::Reg(9)),
        Ins::Arg(Ty::Ptr, Val::Fixed(Fixed::FloatFormat)),
        Ins::Arg(Ty::F64, Val::Param(0)),
        Ins::Call(Ty::I32, Callee::C(Libc::Snprintf), 4),
        Ins::Ret(Ty::Ptr, Val::Reg(8)),
    ]
}

/// `xia_arr_new(kind, cap) -> ptr`: the handle block and an element buffer of
/// `cap` 8-byte words; len starts at 0, refcount at 1.
#[verifier::opaque]
pub open spec fn arr_new_code() -> Seq<Ins> {
    seq![
        Ins::Label(Label { mark: Mark::Entry, at: 0 }),
        Ins::Arg(Ty::I64, Val::Int(40)),
        Ins::Call(Ty::Ptr, Callee::C(Libc::Malloc), 1),
        Ins::Store(Ty::I64, Val::Param(0), Val::Reg(2)),
        Ins::Gep(Ty::I8, Val::Reg(2), Val::Int(8)),
        Ins::Store(Ty::I64, Val::Int(1), Val::Reg(4)),
        Ins::Gep(Ty::I8, Val::Reg(2), Val::Int(16)),
        Ins::Store(Ty::I64, Val::Int(0), Val::Reg(6)),
        Ins::Gep(Ty::I8, Val::Reg(6), Val::Int(8)),
        Ins::Store(Ty::I64, Val::Param(1), Val::Reg(8)),
        Ins::Bin(Op::Mul, Ty::I64, Val::Param(1), Val::Int(8)),
        Ins::Arg(Ty::I64, Val::Reg(10)),
        Ins::Call(Ty::Ptr, Callee::C(Libc::Malloc), 1),
        Ins::Gep(Ty::I8, Val::Reg(6), Val::Int(16)),
        Ins::Store(Ty::Ptr, Val::Reg(12), Val::Reg(13)),
        Ins::Ret(Ty::Ptr, Val::Reg(6)),
    ]
}

/// `xia_arr_push(arr, word)`: append, doubling the buffer when full. Heap
/// elements are retained — the array owns its own reference.
#[verifier::opaque]
pub open spec fn arr_push_code() -> Seq<Ins> {
    seq![
        Ins::Label(Label { mark: Mark::Entry, at: 0 }),
        Ins::Load(Ty::I64, Val::Param(0)),
        Ins::Gep(Ty::I8, Val::Param(0), Val::Int(8)),
        Ins::Load(Ty::I64, Val::Reg(2)),
        Ins::Cmp(Pred::Eq, Ty::I64, Val::Reg(1), Val::Reg(3)),
        Ins::CondBr(Val::Reg(4), Label { mark: Mark::Grow, at: 0 },
            Label { mark: Mark::Store, at: 0 }),
        Ins::Label(Label { mark: Mark::Grow, at: 0 }),
        Ins::Bin(Op::Mul, Ty::I64, Val::Reg(3), Val::Int(2)),
        Ins::Bin(Op::Mul, Ty::I64, Val::Reg(7), Val::Int(8)),
        Ins::Arg(Ty::I64, Val::Reg(8)),
        Ins::Call(Ty::Ptr, Callee::C(Libc::Malloc), 1),
        Ins::Gep(Ty::I8, Val::Param(0), Val::Int(16)),
        Ins::Load(Ty::Ptr, Val::Reg(11)),
        Ins::Bin(Op::Mul, Ty::I64, Val::Reg(1), Val::Int(8)),
        Ins::Memcpy(Val::Reg(10), Val::Reg(12), Val::Reg(13), 8),
        Ins::Arg(Ty::Ptr, Val::Reg(12)),
        Ins::Call(Ty::Void, Callee::C(Libc::Free), 1),
        Ins::Store(Ty::Ptr, Val::Reg(10), Val::Reg(11)),
        Ins::Store(Ty::I64, Val::Reg(7), Val::Reg(2)),
        Ins::Br(Label { mark: Mark::Store, at: 0 }),
        Ins::Label(Label { mark: Mark::Store, at: 0 }),
        Ins::Gep(Ty::I8, Val::Param(0), Val::Int(-16 as i64)),
        Ins::Load(Ty::I64, Val::Reg(21)),
        Ins::Cmp(Pred::Eq, Ty::I64, Val::Reg(22), Val::Int(2)),
        Ins::CondBr(Val::Reg(23), Label { mark: Mark::Retain, at: 0 },
            Label { mark: Mark::Write, at: 0 }),
        Ins::Label(Label { mark: Mark::Retain, at: 0 }),
        Ins::Convert(Conv::WordPtr, Val::Param(1)),
        Ins::Arg(Ty::Ptr, Val::Reg(26)),
        Ins::Call(Ty::Void, Callee::Runtime(Rt::Retain), 1),
        Ins::Br(Label { mark: Mark::Write, at: 0 }),
        Ins::Label(Label { mark: Mark::Write, at: 0 }),
        Ins::Gep(Ty::I8, Val::Param(0), Val::Int(16)),
        Ins::Load(Ty::Ptr, Val::Reg(31)),
        Ins::Gep(Ty::I64, Val::Reg(32), Val::Reg(1)),
        Ins::Store(Ty::I64, Val::Param(1), Val::Reg(33)),
        Ins::Bin(Op::Add, Ty::I64, Val::Reg(1), Val::Int(1)),
        Ins::Store(Ty::I64, Val::Reg(35), Val::Param(0)),
        Ins::RetVoid,
    ]
}

/// `xia_bounds_fail(idx, len)`: print a diagnostic and exit(1).
#[verifier::opaque]
pub open spec fn bounds_fail_code() -> Seq<Ins> {
    seq![
        Ins::Label(Label { mark: Mark::Entry, at: 0 }),
        Ins::Arg(Ty::Ptr, Val::Fixed(Fixed::OutOfBounds)),
        Ins::Arg(Ty::I64, Val::Param(0)),
        Ins::Arg(Ty::I64, Val::Param(1)),
        Ins::Call(Ty::I32, Callee::C(Libc::Printf), 3),
        Ins::Arg(Ty::I32, Val::Int(1)),
        Ins::Call(Ty::Void, Callee::C(Libc::Exit), 1),
        Ins::Unreachable,
    ]
}

/// `xia_arr_get(arr, idx) -> word`: bounds-checked load. Heap elements come
/// back retained (+1) so the caller owns what it received. The unsigned compare
/// folds the `idx < 0` case in: it wraps huge.
#[verifier::opaque]
pub open spec fn arr_get_code() -> Seq<Ins> {
    seq![
        Ins::Label(Label { mark: Mark::Entry, at: 0 }),
        Ins::Load(Ty::I64, Val::Param(0)),
        Ins::Cmp(Pred::Ult, Ty::I64, Val::Param(1), Val::Reg(1)),
        Ins::CondBr(Val::Reg(2), Label { mark: Mark::Load, at: 0 },
            Label { mark: Mark::Trap, at: 0 }),
        Ins::Label(Label { mark: Mark::Trap, at: 0 }),
        Ins::Arg(Ty::I64, Val::Param(1)),
        Ins::Arg(Ty::I64, Val::Reg(1)),
        Ins::Call(Ty::Void, Callee::Runtime(Rt::BoundsFail), 2),
        Ins::Unreachable,
        Ins::Label(Label { mark: Mark::Load, at: 0 }),
        Ins::Gep(Ty::I8, Val::Param(0), Val::Int(16)),
        Ins::Load(Ty::Ptr, Val::Reg(10)),
        Ins::Gep(Ty::I64, Val::Reg(11), Val::Param(1)),
        Ins::Load(Ty::I64, Val::Reg(12)),
        Ins::Gep(Ty::I8, Val::Param(0), Val::Int(-16 as i64)),
        Ins::Load(Ty::I64, Val::Reg(14)),
        Ins::Cmp(Pred::Eq, Ty::I64, Val::Reg(15), Val::Int(2)),
        Ins::CondBr(Val::Reg(16), Label { mark: Mark::Retain, at: 0 },
            Label { mark: Mark::Done, at: 0 }),
        Ins::Label(Label { mark: Mark::Retain, at: 0 }),
        Ins::Convert(Conv::WordPtr, Val::Reg(13)),
        Ins::Arg(Ty::Ptr, Val::Reg(19)),
        Ins::Call(Ty::Void, Callee::Runtime(Rt::Retain), 1),
        Ins::Br(Label { mark: Mark::Done, at: 0 }),
        Ins::Label(Label { mark: Mark::Done, at: 0 }),
        Ins::Ret(Ty::I64, Val::Reg(13)),
    ]
}

/// `xia_arr_set(arr, idx, word)`: bounds-checked store. For heap elements the
/// new value is retained before the old one is released, so `xs[i] = xs[i]` is
/// safe.
#[verifier::opaque]
pub open spec fn arr_set_code() -> Seq<Ins> {
    seq![
        Ins::Label(Label { mark: Mark::Entry, at: 0 }),
        Ins::Load(Ty::I64, Val::Param(0)),
        Ins::Cmp(Pred::Ult, Ty::I64, Val::Param(1), Val::Reg(1)),
        Ins::CondBr(Val::Reg(2), Label { mark: Mark::Check, at: 0 },
            Label { mark: Mark::Trap, at: 0 }),
        Ins::Label(Label { mark: Mark::Trap, at: 0 }),
        Ins::Arg(Ty::I64, Val::Param(1)),
        Ins::Arg(Ty::I64, Val::Reg(1)),
        Ins::Call(Ty::Void, Callee::Runtime(Rt::BoundsFail), 2),
        Ins::Unreachable,
        Ins::Label(Label { mark: Mark::Check, at: 0 }),
        Ins::Gep(Ty::I8, Val::Param(0), Val::Int(16)),
        Ins::Load(Ty::Ptr, Val::Reg(10)),
        Ins::Gep(Ty::I64, Val::Reg(11), Val::Param(1)),
        Ins::Gep(Ty::I8, Val::Param(0), Val::Int(-16 as i64)),
        Ins::Load(Ty::I64, Val::Reg(13)),
        Ins::Cmp(Pred::Eq, Ty::I64, Val::Reg(14), Val::Int(2)),
        Ins::CondBr(Val::Reg(15), Label { mark: Mark::Swap, at: 0 },
            Label { mark: Mark::Write, at: 0 }),
        Ins::Label(Label { mark: Mark::Swap, at: 0 }),
        Ins::Convert(Conv::WordPtr, Val::Param(2)),
        Ins::Arg(Ty::Ptr, Val::Reg(18)),
        Ins::Call(Ty::Void, Callee::Runtime(Rt::Retain), 1),
        Ins::Load(Ty::I64, Val::Reg(12)),
        Ins::Convert(Conv::WordPtr, Val::Reg(21)),
        Ins::Arg(Ty::Ptr, Val::Reg(22)),
        Ins::Call(Ty::Void, Callee::Runtime(Rt::Release), 1),
        Ins::Br(Label { mark: Mark::Write, at: 0 }),
        Ins::Label(Label { mark: Mark::Write, at: 0 }),
        Ins::Store(Ty::I64, Val::Param(2), Val::Reg(12)),
        Ins::RetVoid,
    ]
}

/// `xia_new(kind, words) -> ptr`: a block of so many 8-byte words with that
/// kind word and refcount 1; the pointer past its header.
#[verifier::opaque]
pub open spec fn new_code() -> Seq<Ins> {
    seq![
        Ins::Label(Label { mark: Mark::Entry, at: 0 }),
        Ins::Bin(Op::Mul, Ty::I64, Val::Param(1), Val::Int(8)),
        Ins::Bin(Op::Add, Ty::I64, Val::Reg(1), Val::Int(16)),
        Ins::Arg(Ty::I64, Val::Reg(2)),
        Ins::Call(Ty::Ptr, Callee::C(Libc::Malloc), 1),
        Ins::Store(Ty::Ptr, Val::Param(0), Val::Reg(4)),
        Ins::Gep(Ty::I8, Val::Reg(4), Val::Int(8)),
        Ins::Store(Ty::I64, Val::Int(1), Val::Reg(6)),
        Ins::Gep(Ty::I8, Val::Reg(4), Val::Int(16)),
        Ins::Ret(Ty::Ptr, Val::Reg(8)),
    ]
}

/// The name of a runtime function.
pub open spec fn rt_name(rt: Rt) -> Seq<char> {
    match rt {
        Rt::Retain => "xia_retain"@,
        Rt::Release => "xia_release"@,
        Rt::AllocStr => "xia_alloc_str"@,
        Rt::StrConcat => "xia_str_concat"@,
        Rt::StrDup => "xia_str_dup"@,
        Rt::StrEq => "xia_str_eq"@,
        Rt::IntToStr => "xia_int_to_str"@,
        Rt::FloatToStr => "xia_float_to_str"@,
        Rt::ArrNew => "xia_arr_new"@,
        Rt::ArrPush => "xia_arr_push"@,
        Rt::BoundsFail => "xia_bounds_fail"@,
        Rt::ArrGet => "xia_arr_get"@,
        Rt::ArrSet => "xia_arr_set"@,
        Rt::New => "xia_new"@,
    }
}

pub fn name_of(rt: Rt) -> (s: &'static str)
    ensures
        s@ == rt_name(rt),
{
    match rt {
        Rt::Retain => "xia_retain",
        Rt::Release => "xia_release",
        Rt::AllocStr => "xia_alloc_str",
        Rt::StrConcat => "xia_str_concat",
        Rt::StrDup => "xia_str_dup",
        Rt::StrEq => "xia_str_eq",
        Rt::IntToStr => "xia_int_to_str",
        Rt::FloatToStr => "xia_float_to_str",
        Rt::ArrNew => "xia_arr_new",
        Rt::ArrPush => "xia_arr_push",
        Rt::BoundsFail => "xia_bounds_fail",
        Rt::ArrGet => "xia_arr_get",
        Rt::ArrSet => "xia_arr_set",
        Rt::New => "xia_new",
    }
}

/// The parameter types of a runtime function.
pub open spec fn rt_params(rt: Rt) -> Seq<Ty> {
    match rt {
        Rt::Retain => seq![Ty::Ptr],
        Rt::Release => seq![Ty::Ptr],
        Rt::AllocStr => seq![Ty::I64],
        Rt::StrConcat => seq![Ty::Ptr, Ty::Ptr],
        Rt::StrDup => seq![Ty::Ptr],
        Rt::StrEq => seq![Ty::Ptr, Ty::Ptr],
        Rt::IntToStr => seq![Ty::I64],
        Rt::FloatToStr => seq![Ty::F64],
        Rt::ArrNew => seq![Ty::I64, Ty::I64],
        Rt::ArrPush => seq![Ty::Ptr, Ty::I64],
        Rt::BoundsFail => seq![Ty::I64, Ty::I64],
        Rt::ArrGet => seq![Ty::Ptr, Ty::I64],
        Rt::ArrSet => seq![Ty::Ptr, Ty::I64, Ty::I64],
        Rt::New => seq![Ty::Ptr, Ty::I64],
    }
}

pub fn params_of(rt: Rt) -> (p: Vec<Ty>)
    ensures
        p@ == rt_params(rt),
{
    let p: Vec<Ty> = match rt {
        Rt::Retain => vec![Ty::Ptr],
        Rt::Release => vec![Ty::Ptr],
        Rt::AllocStr => vec![Ty::I64],
        Rt::StrConcat => vec![Ty::Ptr, Ty::Ptr],
        Rt::StrDup => vec![Ty::Ptr],
        Rt::StrEq => vec![Ty::Ptr, Ty::Ptr],
        Rt::IntToStr => vec![Ty::I64],
        Rt::FloatToStr => vec![Ty::F64],
        Rt::ArrNew => vec![Ty::I64, Ty::I64],
        Rt::ArrPush => vec![Ty::Ptr, Ty::I64],
        Rt::BoundsFail => vec![Ty::I64, Ty::I64],
        Rt::ArrGet => vec![Ty::Ptr, Ty::I64],
        Rt::ArrSet => vec![Ty::Ptr, Ty::I64, Ty::I64],
        Rt::New => vec![Ty::Ptr, Ty::I64],
    };
    assert(p@ =~= rt_params(rt));
    p
}

/// The result type of a runtime function.
pub open spec fn rt_ret(rt: Rt) -> Ty {
    match rt {
        Rt::Retain => Ty::Void,
        Rt::Release => Ty::Void,
        Rt::AllocStr => Ty::Ptr,
        Rt::StrConcat => Ty::Ptr,
        Rt::StrDup => Ty::Ptr,
        Rt::StrEq => Ty::I1,
        Rt::IntToStr => Ty::Ptr,
        Rt::FloatToStr => Ty::Ptr,
        Rt::ArrNew => Ty::Ptr,
        Rt::ArrPush => Ty::Void,
        Rt::BoundsFail => Ty::Void,
        Rt::ArrGet => Ty::I64,
        Rt::ArrSet => Ty::Void,
        Rt::New => Ty::Ptr,
    }
}

pub fn ret_of(rt: Rt) -> (t: Ty)
    ensures
        t == rt_ret(rt),
{
    match rt {
        Rt::Retain => Ty::Void,
        Rt::Release => Ty::Void,
        Rt::AllocStr => Ty::Ptr,
        Rt::StrConcat => Ty::Ptr,
        Rt::StrDup => Ty::Ptr,
        Rt::StrEq => Ty::I1,
        Rt::IntToStr => Ty::Ptr,
        Rt::FloatToStr => Ty::Ptr,
        Rt::ArrNew => Ty::Ptr,
        Rt::ArrPush => Ty::Void,
        Rt::BoundsFail => Ty::Void,
        Rt::ArrGet => Ty::I64,
        Rt::ArrSet => Ty::Void,
        Rt::New => Ty::Ptr,
    }
}

/// The body of a runtime function.
pub open spec fn rt_code(rt: Rt) -> Seq<Ins> {
    match rt {
        Rt::Retain => retain_code(),
        Rt::Release => release_code(),
        Rt::AllocStr => alloc_str_code(),
        Rt::StrConcat => str_concat_code(),
        Rt::StrDup => str_dup_code(),
        Rt::StrEq => str_eq_code(),
        Rt::IntToStr => int_to_str_code(),
        Rt::FloatToStr => float_to_str_code(),
        Rt::ArrNew => arr_new_code(),
        Rt::ArrPush => arr_push_code(),
        Rt::BoundsFail => bounds_fail_code(),
        Rt::ArrGet => arr_get_code(),
        Rt::ArrSet => arr_set_code(),
        Rt::New => new_code(),
    }
}

pub fn code_of(rt: Rt) -> (code: Vec<Ins>)
    ensures
        code@ == rt_code(rt),
{
    match rt {
        Rt::Retain => build_retain(),
        Rt::Release => build_release(),
        Rt::AllocStr => build_alloc_str(),
        Rt::StrConcat => build_str_concat(),
        Rt::StrDup => build_str_dup(),
        Rt::StrEq => build_str_eq(),
        Rt::IntToStr => build_int_to_str(),
        Rt::FloatToStr => build_float_to_str(),
        Rt::ArrNew => build_arr_new(),
        Rt::ArrPush => build_arr_push(),
        Rt::BoundsFail => build_bounds_fail(),
        Rt::ArrGet => build_arr_get(),
        Rt::ArrSet => build_arr_set(),
        Rt::New => build_new(),
    }
}

/// The runtime functions, each before those it calls (itself aside).
pub open spec fn rt_order() -> Seq<Rt> {
    seq![
        Rt::ArrSet,
        Rt::ArrGet,
        Rt::ArrPush,
        Rt::ArrNew,
        Rt::StrConcat,
        Rt::StrDup,
        Rt::StrEq,
        Rt::IntToStr,
        Rt::FloatToStr,
        Rt::New,
        Rt::BoundsFail,
        Rt::Release,
        Rt::Retain,
        Rt::AllocStr,
    ]
}

pub fn all_rt() -> (v: Vec<Rt>)
    ensures
        v@ == rt_order(),
{
    let v: Vec<Rt> = vec![
        Rt::ArrSet,
        Rt::ArrGet,
        Rt::ArrPush,
        Rt::ArrNew,
        Rt::StrConcat,
        Rt::StrDup,
        Rt::StrEq,
        Rt::IntToStr,
        Rt::FloatToStr,
        Rt::New,
        Rt::BoundsFail,
        Rt::Release,
        Rt::Retain,
        Rt::AllocStr,
    ];
    assert(v@ =~= rt_order());
    v
}

fn build_retain() -> (code: Vec<Ins>)
    ensures
        code@ == retain_code(),
{
    proof {
        reveal(retain_code);
    }
    let code: Vec<Ins> = vec![
        Ins::Label(Label { mark: Mark::Entry, at: 0 }),
        Ins::Cmp(Pred::Eq, Ty::Ptr, Val::Param(0), Val::Null),
        Ins::CondBr(Val::Reg(1), Label { mark: Mark::Done, at: 0 },
            Label { mark: Mark::Check, at: 0 }),
        Ins::Label(Label { mark: Mark::Check, at: 0 }),
        Ins::Gep(Ty::I8, Val::Param(0), Val::Int(-8)),
        Ins::Load(Ty::I64, Val::Reg(4)),
        Ins::Cmp(Pred::Slt, Ty::I64, Val::Reg(5), Val::Int(0)),
        Ins::CondBr(Val::Reg(6), Label { mark: Mark::Done, at: 0 },
            Label { mark: Mark::Inc, at: 0 }),
        Ins::Label(Label { mark: Mark::Inc, at: 0 }),
        Ins::Bin(Op::Add, Ty::I64, Val::Reg(5), Val::Int(1)),
        Ins::Store(Ty::I64, Val::Reg(9), Val::Reg(4)),
        Ins::Br(Label { mark: Mark::Done, at: 0 }),
        Ins::Label(Label { mark: Mark::Done, at: 0 }),
        Ins::RetVoid,
    ];
    assert(code@ =~= retain_code());
    code
}

fn build_release() -> (code: Vec<Ins>)
    ensures
        code@ == release_code(),
{
    proof {
        reveal(release_code);
    }
    let code: Vec<Ins> = vec![
        Ins::Label(Label { mark: Mark::Entry, at: 0 }),
        Ins::Cmp(Pred::Eq, Ty::Ptr, Val::Param(0), Val::Null),
        Ins::CondBr(Val::Reg(1), Label { mark: Mark::Done, at: 0 },
            Label { mark: Mark::Check, at: 0 }),
        Ins::Label(Label { mark: Mark::Check, at: 0 }),
        Ins::Gep(Ty::I8, Val::Param(0), Val::Int(-8)),
        Ins::Load(Ty::I64, Val::Reg(4)),
        Ins::Cmp(Pred::Slt, Ty::I64, Val::Reg(5), Val::Int(0)),
        Ins::CondBr(Val::Reg(6), Label { mark: Mark::Done, at: 0 },
            Label { mark: Mark::Dec, at: 0 }),
        Ins::Label(Label { mark: Mark::Dec, at: 0 }),
        Ins::Bin(Op::Sub, Ty::I64, Val::Reg(5), Val::Int(1)),
        Ins::Cmp(Pred::Eq, Ty::I64, Val::Reg(9), Val::Int(0)),
        Ins::CondBr(Val::Reg(10), Label { mark: Mark::Dead, at: 0 },
            Label { mark: Mark::Store, at: 0 }),
        Ins::Label(Label { mark: Mark::Dead, at: 0 }),
        Ins::Gep(Ty::I8, Val::Param(0), Val::Int(-16)),
        Ins::Load(Ty::I64, Val::Reg(13)),
        Ins::Cmp(Pred::Eq, Ty::I64, Val::Reg(14), Val::Int(0)),
        Ins::CondBr(Val::Reg(15), Label { mark: Mark::FreeBlock, at: 0 },
            Label { mark: Mark::Owner, at: 0 }),
        Ins::Label(Label { mark: Mark::Owner, at: 0 }),
        Ins::Cmp(Pred::Ult, Ty::I64, Val::Reg(14), Val::Int(3)),
        Ins::CondBr(Val::Reg(18), Label { mark: Mark::Arr, at: 0 },
            Label { mark: Mark::Drop, at: 0 }),
        Ins::Label(Label { mark: Mark::Drop, at: 0 }),
        Ins::Convert(Conv::WordPtr, Val::Reg(14)),
        Ins::Arg(Ty::Ptr, Val::Param(0)),
        Ins::Call(Ty::Void, Callee::Pointer(Val::Reg(21)), 1),
        Ins::Br(Label { mark: Mark::FreeBlock, at: 0 }),
        Ins::Label(Label { mark: Mark::Arr, at: 0 }),
        Ins::Load(Ty::I64, Val::Param(0)),
        Ins::Gep(Ty::I8, Val::Param(0), Val::Int(16)),
        Ins::Load(Ty::Ptr, Val::Reg(27)),
        Ins::Cmp(Pred::Eq, Ty::I64, Val::Reg(14), Val::Int(2)),
        Ins::CondBr(Val::Reg(29), Label { mark: Mark::ElemLoop, at: 0 },
            Label { mark: Mark::FreeData, at: 0 }),
        Ins::Label(Label { mark: Mark::ElemLoop, at: 0 }),
        Ins::Phi(Ty::I64, Val::Int(0), Label { mark: Mark::Arr, at: 0 }, Val::Reg(41),
            Label { mark: Mark::ElemBody, at: 0 }),
        Ins::Cmp(Pred::Slt, Ty::I64, Val::Reg(32), Val::Reg(26)),
        Ins::CondBr(Val::Reg(33), Label { mark: Mark::ElemBody, at: 0 },
            Label { mark: Mark::FreeData, at: 0 }),
        Ins::Label(Label { mark: Mark::ElemBody, at: 0 }),
        Ins::Gep(Ty::I64, Val::Reg(28), Val::Reg(32)),
        Ins::Load(Ty::I64, Val::Reg(36)),
        Ins::Convert(Conv::WordPtr, Val::Reg(37)),
        Ins::Arg(Ty::Ptr, Val::Reg(38)),
        Ins::Call(Ty::Void, Callee::Runtime(Rt::Release), 1),
        Ins::Bin(Op::Add, Ty::I64, Val::Reg(32), Val::Int(1)),
        Ins::Br(Label { mark: Mark::ElemLoop, at: 0 }),
        Ins::Label(Label { mark: Mark::FreeData, at: 0 }),
        Ins::Arg(Ty::Ptr, Val::Reg(28)),
        Ins::Call(Ty::Void, Callee::C(Libc::Free), 1),
        Ins::Br(Label { mark: Mark::FreeBlock, at: 0 }),
        Ins::Label(Label { mark: Mark::FreeBlock, at: 0 }),
        Ins::Arg(Ty::Ptr, Val::Reg(13)),
        Ins::Call(Ty::Void, Callee::C(Libc::Free), 1),
        Ins::Br(Label { mark: Mark::Done, at: 0 }),
        Ins::Label(Label { mark: Mark::Store, at: 0 }),
        Ins::Store(Ty::I64, Val::Reg(9), Val::Reg(4)),
        Ins::Br(Label { mark: Mark::Done, at: 0 }),
        Ins::Label(Label { mark: Mark::Done, at: 0 }),
        Ins::RetVoid,
    ];
    assert(code@ =~= release_code());
    code
}

fn build_alloc_str() -> (code: Vec<Ins>)
    ensures
        code@ == alloc_str_code(),
{
    proof {
        reveal(alloc_str_code);
    }
    let code: Vec<Ins> = vec![
        Ins::Label(Label { mark: Mark::Entry, at: 0 }),
        Ins::Bin(Op::Add, Ty::I64, Val::Param(0), Val::Int(17)),
        Ins::Arg(Ty::I64, Val::Reg(1)),
        Ins::Call(Ty::Ptr, Callee::C(Libc::Malloc), 1),
        Ins::Store(Ty::I64, Val::Int(0), Val::Reg(3)),
        Ins::Gep(Ty::I8, Val::Reg(3), Val::Int(8)),
        Ins::Store(Ty::I64, Val::Int(1), Val::Reg(5)),
        Ins::Gep(Ty::I8, Val::Reg(3), Val::Int(16)),
        Ins::Ret(Ty::Ptr, Val::Reg(7)),
    ];
    assert(code@ =~= alloc_str_code());
    code
}

fn build_str_concat() -> (code: Vec<Ins>)
    ensures
        code@ == str_concat_code(),
{
    proof {
        reveal(str_concat_code);
    }
    let code: Vec<Ins> = vec![
        Ins::Label(Label { mark: Mark::Entry, at: 0 }),
        Ins::Arg(Ty::Ptr, Val::Param(0)),
        Ins::Call(Ty::I64, Callee::C(Libc::Strlen), 1),
        Ins::Arg(Ty::Ptr, Val::Param(1)),
        Ins::Call(Ty::I64, Callee::C(Libc::Strlen), 1),
        Ins::Bin(Op::Add, Ty::I64, Val::Reg(2), Val::Reg(4)),
        Ins::Arg(Ty::I64, Val::Reg(5)),
        Ins::Call(Ty::Ptr, Callee::Runtime(Rt::AllocStr), 1),
        Ins::Memcpy(Val::Reg(7), Val::Param(0), Val::Reg(2), 1),
        Ins::Gep(Ty::I8, Val::Reg(7), Val::Reg(2)),
        Ins::Memcpy(Val::Reg(9), Val::Param(1), Val::Reg(4), 1),
        Ins::Gep(Ty::I8, Val::Reg(9), Val::Reg(4)),
        Ins::Store(Ty::I8, Val::Int(0), Val::Reg(11)),
        Ins::Ret(Ty::Ptr, Val::Reg(7)),
    ];
    assert(code@ =~= str_concat_code());
    code
}

fn build_str_dup() -> (code: Vec<Ins>)
    ensures
        code@ == str_dup_code(),
{
    proof {
        reveal(str_dup_code);
    }
    let code: Vec<Ins> = vec![
        Ins::Label(Label { mark: Mark::Entry, at: 0 }),
        Ins::Cmp(Pred::Eq, Ty::Ptr, Val::Param(0), Val::Null),
        Ins::CondBr(Val::Reg(1), Label { mark: Mark::Null, at: 0 },
            Label { mark: Mark::Copy, at: 0 }),
        Ins::Label(Label { mark: Mark::Null, at: 0 }),
        Ins::Ret(Ty::Ptr, Val::Null),
        Ins::Label(Label { mark: Mark::Copy, at: 0 }),
        Ins::Arg(Ty::Ptr, Val::Param(0)),
        Ins::Call(Ty::I64, Callee::C(Libc::Strlen), 1),
        Ins::Arg(Ty::I64, Val::Reg(7)),
        Ins::Call(Ty::Ptr, Callee::Runtime(Rt::AllocStr), 1),
        Ins::Bin(Op::Add, Ty::I64, Val::Reg(7), Val::Int(1)),
        Ins::Memcpy(Val::Reg(9), Val::Param(0), Val::Reg(10), 1),
        Ins::Ret(Ty::Ptr, Val::Reg(9)),
    ];
    assert(code@ =~= str_dup_code());
    code
}

fn build_str_eq() -> (code: Vec<Ins>)
    ensures
        code@ == str_eq_code(),
{
    proof {
        reveal(str_eq_code);
    }
    let code: Vec<Ins> = vec![
        Ins::Label(Label { mark: Mark::Entry, at: 0 }),
        Ins::Arg(Ty::Ptr, Val::Param(0)),
        Ins::Arg(Ty::Ptr, Val::Param(1)),
        Ins::Call(Ty::I32, Callee::C(Libc::Compare), 2),
        Ins::Cmp(Pred::Eq, Ty::I32, Val::Reg(3), Val::Int(0)),
        Ins::Ret(Ty::I1, Val::Reg(4)),
    ];
    assert(code@ =~= str_eq_code());
    code
}

fn build_int_to_str() -> (code: Vec<Ins>)
    ensures
        code@ == int_to_str_code(),
{
    proof {
        reveal(int_to_str_code);
    }
    let code: Vec<Ins> = vec![
        Ins::Label(Label { mark: Mark::Entry, at: 0 }),
        Ins::Arg(Ty::Ptr, Val::Null),
        Ins::Arg(Ty::I64, Val::Int(0)),
        Ins::Arg(Ty::Ptr, Val::Fixed(Fixed::IntFormat)),
        Ins::Arg(Ty::I64, Val::Param(0)),
        Ins::Call(Ty::I32, Callee::C(Libc::Snprintf), 4),
        Ins::Convert(Conv::Sext32, Val::Reg(5)),
        Ins::Arg(Ty::I64, Val::Reg(6)),
        Ins::Call(Ty::Ptr, Callee::Runtime(Rt::AllocStr), 1),
        Ins::Bin(Op::Add, Ty::I64, Val::Reg(6), Val::Int(1)),
        Ins::Arg(Ty::Ptr, Val::Reg(8)),
        Ins::Arg(Ty::I64, Val::Reg(9)),
        Ins::Arg(Ty::Ptr, Val::Fixed(Fixed::IntFormat)),
        Ins::Arg(Ty::I64, Val::Param(0)),
        Ins::Call(Ty::I32, Callee::C(Libc::Snprintf), 4),
        Ins::Ret(Ty::Ptr, Val::Reg(8)),
    ];
    assert(code@ =~= int_to_str_code());
    code
}

fn build_float_to_str() -> (code: Vec<Ins>)
    ensures
        code@ == float_to_str_code(),
{
    proof {
        reveal(float_to_str_code);
    }
    let code: Vec<Ins> = vec![
        Ins::Label(Label { mark: Mark::Entry, at: 0 }),
        Ins::Arg(Ty::Ptr, Val::Null),
        Ins::Arg(Ty::I64, Val::Int(0)),
        Ins::Arg(Ty::Ptr, Val::Fixed(Fixed::FloatFormat)),
        Ins::Arg(Ty::F64, Val::Param(0)),
        Ins::Call(Ty::I32, Callee::C(Libc::Snprintf), 4),
        Ins::Convert(Conv::Sext32, Val::Reg(5)),
        Ins::Arg(Ty::I64, Val::Reg(6)),
        Ins::Call(Ty::Ptr, Callee::Runtime(Rt::AllocStr), 1),
        Ins::Bin(Op::Add, Ty::I64, Val::Reg(6), Val::Int(1)),
        Ins::Arg(Ty::Ptr, Val::Reg(8)),
        Ins::Arg(Ty::I64, Val::Reg(9)),
        Ins::Arg(Ty::Ptr, Val::Fixed(Fixed::FloatFormat)),
        Ins::Arg(Ty::F64, Val::Param(0)),
        Ins::Call(Ty::I32, Callee::C(Libc::Snprintf), 4),
        Ins::Ret(Ty::Ptr, Val::Reg(8)),
    ];
    assert(code@ =~= float_to_str_code());
    code
}

fn build_arr_new() -> (code: Vec<Ins>)
    ensures
        code@ == arr_new_code(),
{
    proof {
        reveal(arr_new_code);
    }
    let code: Vec<Ins> = vec![
        Ins::Label(Label { mark: Mark::Entry, at: 0 }),
        Ins::Arg(Ty::I64, Val::Int(40)),
        Ins::Call(Ty::Ptr, Callee::C(Libc::Malloc), 1),
        Ins::Store(Ty::I64, Val::Param(0), Val::Reg(2)),
        Ins::Gep(Ty::I8, Val::Reg(2), Val::Int(8)),
        Ins::Store(Ty::I64, Val::Int(1), Val::Reg(4)),
        Ins::Gep(Ty::I8, Val::Reg(2), Val::Int(16)),
        Ins::Store(Ty::I64, Val::Int(0), Val::Reg(6)),
        Ins::Gep(Ty::I8, Val::Reg(6), Val::Int(8)),
        Ins::Store(Ty::I64, Val::Param(1), Val::Reg(8)),
        Ins::Bin(Op::Mul, Ty::I64, Val::Param(1), Val::Int(8)),
        Ins::Arg(Ty::I64, Val::Reg(10)),
        Ins::Call(Ty::Ptr, Callee::C(Libc::Malloc), 1),
        Ins::Gep(Ty::I8, Val::Reg(6), Val::Int(16)),
        Ins::Store(Ty::Ptr, Val::Reg(12), Val::Reg(13)),
        Ins::Ret(Ty::Ptr, Val::Reg(6)),
    ];
    assert(code@ =~= arr_new_code());
    code
}

fn build_arr_push() -> (code: Vec<Ins>)
    ensures
        code@ == arr_push_code(),
{
    proof {
        reveal(arr_push_code);
    }
    let code: Vec<Ins> = vec![
        Ins::Label(Label { mark: Mark::Entry, at: 0 }),
        Ins::Load(Ty::I64, Val::Param(0)),
        Ins::Gep(Ty::I8, Val::Param(0), Val::Int(8)),
        Ins::Load(Ty::I64, Val::Reg(2)),
        Ins::Cmp(Pred::Eq, Ty::I64, Val::Reg(1), Val::Reg(3)),
        Ins::CondBr(Val::Reg(4), Label { mark: Mark::Grow, at: 0 },
            Label { mark: Mark::Store, at: 0 }),
        Ins::Label(Label { mark: Mark::Grow, at: 0 }),
        Ins::Bin(Op::Mul, Ty::I64, Val::Reg(3), Val::Int(2)),
        Ins::Bin(Op::Mul, Ty::I64, Val::Reg(7), Val::Int(8)),
        Ins::Arg(Ty::I64, Val::Reg(8)),
        Ins::Call(Ty::Ptr, Callee::C(Libc::Malloc), 1),
        Ins::Gep(Ty::I8, Val::Param(0), Val::Int(16)),
        Ins::Load(Ty::Ptr, Val::Reg(11)),
        Ins::Bin(Op::Mul, Ty::I64, Val::Reg(1), Val::Int(8)),
        Ins::Memcpy(Val::Reg(10), Val::Reg(12), Val::Reg(13), 8),
        Ins::Arg(Ty::Ptr, Val::Reg(12)),
        Ins::Call(Ty::Void, Callee::C(Libc::Free), 1),
        Ins::Store(Ty::Ptr, Val::Reg(10), Val::Reg(11)),
        Ins::Store(Ty::I64, Val::Reg(7), Val::Reg(2)),
        Ins::Br(Label { mark: Mark::Store, at: 0 }),
        Ins::Label(Label { mark: Mark::Store, at: 0 }),
        Ins::Gep(Ty::I8, Val::Param(0), Val::Int(-16)),
        Ins::Load(Ty::I64, Val::Reg(21)),
        Ins::Cmp(Pred::Eq, Ty::I64, Val::Reg(22), Val::Int(2)),
        Ins::CondBr(Val::Reg(23), Label { mark: Mark::Retain, at: 0 },
            Label { mark: Mark::Write, at: 0 }),
        Ins::Label(Label { mark: Mark::Retain, at: 0 }),
        Ins::Convert(Conv::WordPtr, Val::Param(1)),
        Ins::Arg(Ty::Ptr, Val::Reg(26)),
        Ins::Call(Ty::Void, Callee::Runtime(Rt::Retain), 1),
        Ins::Br(Label { mark: Mark::Write, at: 0 }),
        Ins::Label(Label { mark: Mark::Write, at: 0 }),
        Ins::Gep(Ty::I8, Val::Param(0), Val::Int(16)),
        Ins::Load(Ty::Ptr, Val::Reg(31)),
        Ins::Gep(Ty::I64, Val::Reg(32), Val::Reg(1)),
        Ins::Store(Ty::I64, Val::Param(1), Val::Reg(33)),
        Ins::Bin(Op::Add, Ty::I64, Val::Reg(1), Val::Int(1)),
        Ins::Store(Ty::I64, Val::Reg(35), Val::Param(0)),
        Ins::RetVoid,
    ];
    assert(code@ =~= arr_push_code());
    code
}

fn build_bounds_fail() -> (code: Vec<Ins>)
    ensures
        code@ == bounds_fail_code(),
{
    proof {
        reveal(bounds_fail_code);
    }
    let code: Vec<Ins> = vec![
        Ins::Label(Label { mark: Mark::Entry, at: 0 }),
        Ins::Arg(Ty::Ptr, Val::Fixed(Fixed::OutOfBounds)),
        Ins::Arg(Ty::I64, Val::Param(0)),
        Ins::Arg(Ty::I64, Val::Param(1)),
        Ins::Call(Ty::I32, Callee::C(Libc::Printf), 3),
        Ins::Arg(Ty::I32, Val::Int(1)),
        Ins::Call(Ty::Void, Callee::C(Libc::Exit), 1),
        Ins::Unreachable,
    ];
    assert(code@ =~= bounds_fail_code());
    code
}

fn build_arr_get() -> (code: Vec<Ins>)
    ensures
        code@ == arr_get_code(),
{
    proof {
        reveal(arr_get_code);
    }
    let code: Vec<Ins> = vec![
        Ins::Label(Label { mark: Mark::Entry, at: 0 }),
        Ins::Load(Ty::I64, Val::Param(0)),
        Ins::Cmp(Pred::Ult, Ty::I64, Val::Param(1), Val::Reg(1)),
        Ins::CondBr(Val::Reg(2), Label { mark: Mark::Load, at: 0 },
            Label { mark: Mark::Trap, at: 0 }),
        Ins::Label(Label { mark: Mark::Trap, at: 0 }),
        Ins::Arg(Ty::I64, Val::Param(1)),
        Ins::Arg(Ty::I64, Val::Reg(1)),
        Ins::Call(Ty::Void, Callee::Runtime(Rt::BoundsFail), 2),
        Ins::Unreachable,
        Ins::Label(Label { mark: Mark::Load, at: 0 }),
        Ins::Gep(Ty::I8, Val::Param(0), Val::Int(16)),
        Ins::Load(Ty::Ptr, Val::Reg(10)),
        Ins::Gep(Ty::I64, Val::Reg(11), Val::Param(1)),
        Ins::Load(Ty::I64, Val::Reg(12)),
        Ins::Gep(Ty::I8, Val::Param(0), Val::Int(-16)),
        Ins::Load(Ty::I64, Val::Reg(14)),
        Ins::Cmp(Pred::Eq, Ty::I64, Val::Reg(15), Val::Int(2)),
        Ins::CondBr(Val::Reg(16), Label { mark: Mark::Retain, at: 0 },
            Label { mark: Mark::Done, at: 0 }),
        Ins::Label(Label { mark: Mark::Retain, at: 0 }),
        Ins::Convert(Conv::WordPtr, Val::Reg(13)),
        Ins::Arg(Ty::Ptr, Val::Reg(19)),
        Ins::Call(Ty::Void, Callee::Runtime(Rt::Retain), 1),
        Ins::Br(Label { mark: Mark::Done, at: 0 }),
        Ins::Label(Label { mark: Mark::Done, at: 0 }),
        Ins::Ret(Ty::I64, Val::Reg(13)),
    ];
    assert(code@ =~= arr_get_code());
    code
}

fn build_arr_set() -> (code: Vec<Ins>)
    ensures
        code@ == arr_set_code(),
{
    proof {
        reveal(arr_set_code);
    }
    let code: Vec<Ins> = vec![
        Ins::Label(Label { mark: Mark::Entry, at: 0 }),
        Ins::Load(Ty::I64, Val::Param(0)),
        Ins::Cmp(Pred::Ult, Ty::I64, Val::Param(1), Val::Reg(1)),
        Ins::CondBr(Val::Reg(2), Label { mark: Mark::Check, at: 0 },
            Label { mark: Mark::Trap, at: 0 }),
        Ins::Label(Label { mark: Mark::Trap, at: 0 }),
        Ins::Arg(Ty::I64, Val::Param(1)),
        Ins::Arg(Ty::I64, Val::Reg(1)),
        Ins::Call(Ty::Void, Callee::Runtime(Rt::BoundsFail), 2),
        Ins::Unreachable,
        Ins::Label(Label { mark: Mark::Check, at: 0 }),
        Ins::Gep(Ty::I8, Val::Param(0), Val::Int(16)),
        Ins::Load(Ty::Ptr, Val::Reg(10)),
        Ins::Gep(Ty::I64, Val::Reg(11), Val::Param(1)),
        Ins::Gep(Ty::I8, Val::Param(0), Val::Int(-16)),
        Ins::Load(Ty::I64, Val::Reg(13)),
        Ins::Cmp(Pred::Eq, Ty::I64, Val::Reg(14), Val::Int(2)),
        Ins::CondBr(Val::Reg(15), Label { mark: Mark::Swap, at: 0 },
            Label { mark: Mark::Write, at: 0 }),
        Ins::Label(Label { mark: Mark::Swap, at: 0 }),
        Ins::Convert(Conv::WordPtr, Val::Param(2)),
        Ins::Arg(Ty::Ptr, Val::Reg(18)),
        Ins::Call(Ty::Void, Callee::Runtime(Rt::Retain), 1),
        Ins::Load(Ty::I64, Val::Reg(12)),
        Ins::Convert(Conv::WordPtr, Val::Reg(21)),
        Ins::Arg(Ty::Ptr, Val::Reg(22)),
        Ins::Call(Ty::Void, Callee::Runtime(Rt::Release), 1),
        Ins::Br(Label { mark: Mark::Write, at: 0 }),
        Ins::Label(Label { mark: Mark::Write, at: 0 }),
        Ins::Store(Ty::I64, Val::Param(2), Val::Reg(12)),
        Ins::RetVoid,
    ];
    assert(code@ =~= arr_set_code());
    code
}

fn build_new() -> (code: Vec<Ins>)
    ensures
        code@ == new_code(),
{
    proof {
        reveal(new_code);
    }
    let code: Vec<Ins> = vec![
        Ins::Label(Label { mark: Mark::Entry, at: 0 }),
        Ins::Bin(Op::Mul, Ty::I64, Val::Param(1), Val::Int(8)),
        Ins::Bin(Op::Add, Ty::I64, Val::Reg(1), Val::Int(16)),
        Ins::Arg(Ty::I64, Val::Reg(2)),
        Ins::Call(Ty::Ptr, Callee::C(Libc::Malloc), 1),
        Ins::Store(Ty::Ptr, Val::Param(0), Val::Reg(4)),
        Ins::Gep(Ty::I8, Val::Reg(4), Val::Int(8)),
        Ins::Store(Ty::I64, Val::Int(1), Val::Reg(6)),
        Ins::Gep(Ty::I8, Val::Reg(4), Val::Int(16)),
        Ins::Ret(Ty::Ptr, Val::Reg(8)),
    ];
    assert(code@ =~= new_code());
    code
}

} // verus!
