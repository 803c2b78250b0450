//! The instructions that programs are lowered to: a subset of LLVM IR.
//!
//! A function body is a flat sequence of instructions. The result of an
//! instruction is named by its position, so registers need no allocation; a
//! label is named by what it marks and by the position at which the construct
//! it belongs to begins. All of it is plain data, the same in code and in
//! contracts.
use vstd::prelude::*;

verus! {

/// The types of LLVM values.
#[derive(Debug, Clone, Copy, PartialEq, Eq, Structural)]
pub enum Ty {
    I1,
    I8,
    I32,
    I64,
    F64,
    Ptr,
    Void,
}

/// What a block is for.
#[derive(Debug, Clone, Copy, PartialEq, Eq, Structural)]
pub enum Mark {
    Entry,
    Then,
    Else,
    EndIf,
    LoopCond,
    LoopBody,
    LoopEnd,
    ForCond,
    ForBody,
    ForInc,
    ForEnd,
    ForeachCond,
    ForeachBody,
    ForeachInc,
    ForeachEnd,
    ScRhs,
    ScEnd,
    Arm,
    NextArm,
    MatchEnd,
    Check,
    Inc,
    Dec,
    Dead,
    Owner,
    Drop,
    Arr,
    ElemLoop,
    ElemBody,
    FreeData,
    FreeBlock,
    Store,
    Done,
    Copy,
    Null,
    Grow,
    Retain,
    Write,
    Trap,
    Load,
    Swap,
    Variant,
    NextVariant,
}

/// A block: what it is for, and where its construct begins.
#[derive(Debug, Clone, Copy, PartialEq, Eq, Structural)]
pub struct Label {
    pub mark: Mark,
    pub at: usize,
}

/// The functions of the runtime, built directly in IR.
#[derive(Debug, Clone, Copy, PartialEq, Eq, Structural)]
pub enum Rt {
    Retain,
    Release,
    AllocStr,
    StrConcat,
    StrDup,
    StrEq,
    IntToStr,
    FloatToStr,
    ArrNew,
    ArrPush,
    BoundsFail,
    ArrGet,
    ArrSet,
    New,
}

/// The functions that come from the C library.
#[derive(Debug, Clone, Copy, PartialEq, Eq, Structural)]
pub enum Libc {
    Printf,
    Snprintf,
    Strlen,
    Compare,
    Malloc,
    Free,
    Exit,
}

/// The fixed texts of the runtime.
#[derive(Debug, Clone, Copy, PartialEq, Eq, Structural)]
pub enum Fixed {
    IntFormat,
    FloatFormat,
    OutOfBounds,
}

/// An operand.
#[derive(Debug, Clone, Copy, PartialEq, Eq, Structural)]
pub enum Val {
    /// The result of the instruction at that position.
    Reg(usize),
    /// The parameter at that position.
    Param(usize),
    Int(i64),
    Bool(bool),
    /// A floating-point literal, by its number.
    Float(usize),
    /// The null pointer.
    Null,
    /// The bytes of a string literal, by its number.
    Lit(usize),
    /// The bytes of a fixed text.
    Fixed(Fixed),
    /// The destructor of a struct, by id.
    DropStruct(u32),
    /// The destructor of an enum, by id.
    DropEnum(u32),
}

/// Who is called.
#[derive(Debug, Clone, Copy, PartialEq, Eq, Structural)]
pub enum Callee {
    /// A function of the program, by the number of its symbol.
    Symbol(usize),
    Runtime(Rt),
    C(Libc),
    /// A function behind a pointer.
    Pointer(Val),
}

/// Operations on two operands of one type.
#[derive(Debug, Clone, Copy, PartialEq, Eq, Structural)]
pub enum Op {
    Add,
    Sub,
    Mul,
    SDiv,
    SRem,
    FAdd,
    FSub,
    FMul,
    FDiv,
    FRem,
    Xor,
}

/// Comparisons.
#[derive(Debug, Clone, Copy, PartialEq, Eq, Structural)]
pub enum Pred {
    Eq,
    Ne,
    Slt,
    Sle,
    Sgt,
    Sge,
    Ult,
    FEq,
    FNe,
    FLt,
    FLe,
    FGt,
    FGe,
}

/// Conversions.
#[derive(Debug, Clone, Copy, PartialEq, Eq, Structural)]
pub enum Conv {
    /// `double` to its bits.
    FloatBits,
    /// Bits to a `double`.
    BitsFloat,
    /// `i1` to `i64`.
    BoolWord,
    /// `i64` to `i1`.
    WordBool,
    /// Pointer to `i64`.
    PtrWord,
    /// `i64` to pointer.
    WordPtr,
    /// `i64` to `i32`.
    Trunc32,
    /// `i32` to `i64`.
    Sext32,
}

/// An instruction. One with a result is referred to by its position.
#[derive(Debug, Clone, Copy, PartialEq, Eq, Structural)]
pub enum Ins {
    /// The block of that label begins.
    Label(Label),
    Br(Label),
    CondBr(Val, Label, Label),
    Ret(Ty, Val),
    RetVoid,
    Unreachable,
    /// A stack slot for a value of that type.
    Alloca(Ty),
    /// The value, then where it goes.
    Store(Ty, Val, Val),
    Load(Ty, Val),
    Bin(Op, Ty, Val, Val),
    Cmp(Pred, Ty, Val, Val),
    FNeg(Val),
    Convert(Conv, Val),
    /// The condition, the type, and the two choices.
    Select(Val, Ty, Val, Val),
    /// A value for each of two blocks that control came from.
    Phi(Ty, Val, Label, Val, Label),
    /// The address of the element at an index of an array of that type.
    Gep(Ty, Val, Val),
    /// One argument of the call that follows.
    Arg(Ty, Val),
    /// A call with that many arguments, which stand directly before it.
    Call(Ty, Callee, usize),
    /// Destination, source, length in bytes, alignment of both.
    Memcpy(Val, Val, Val, usize),
}

impl Ins {
    /// Whether the instruction ends a block.
    pub open spec fn ends_block(self) -> bool {
        self is Br || self is CondBr || self is Ret || self is RetVoid || self is Unreachable
    }
}

} // verus!
