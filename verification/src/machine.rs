//! What the runtime functions do when they run.
//!
//! A machine for the instructions: memory is a map from addresses to words,
//! registers hold integers (a pointer is its address, a float its bits), and
//! calls are recorded in a log, with results that the world supplies. The laws
//! below say what memory, log and result each runtime function ends with.
use vstd::prelude::*;
use crate::ir::{Callee, Conv, Fixed, Ins, Label, Libc, Mark, Op, Pred, Rt, Ty, Val};
use crate::runtime::{
    alloc_str_code, arr_get_code, arr_new_code, arr_push_code, arr_set_code, bounds_fail_code,
    float_to_str_code, int_to_str_code, new_code, release_code, retain_code, str_concat_code,
    str_dup_code, str_eq_code,
};

verus! {

/// Calculating with floats, each of which stands for its bits: what the literals
/// are, by their number, what the operations give and which comparisons hold.
pub struct Floats {
    pub literal: spec_fn(int) -> int,
    pub negative: spec_fn(int) -> int,
    pub sum: spec_fn(int, int) -> int,
    pub difference: spec_fn(int, int) -> int,
    pub product: spec_fn(int, int) -> int,
    pub quotient: spec_fn(int, int) -> int,
    pub remainder: spec_fn(int, int) -> int,
    pub equal: spec_fn(int, int) -> bool,
    pub unequal: spec_fn(int, int) -> bool,
    pub less: spec_fn(int, int) -> bool,
    pub less_or_equal: spec_fn(int, int) -> bool,
    pub greater: spec_fn(int, int) -> bool,
    pub greater_or_equal: spec_fn(int, int) -> bool,
}

/// What a function is run with: its arguments, where the fixed texts and the
/// string literals are, what floats are, where its stack slots are, by the
/// instruction that makes them, and what the calls it makes return, by their
/// number.
pub struct World {
    pub args: Seq<int>,
    pub fixed: spec_fn(Fixed) -> int,
    pub lits: spec_fn(int) -> int,
    pub floats: Floats,
    pub slots: spec_fn(int) -> int,
    pub returns: spec_fn(int) -> int,
}

/// A call that was made.
pub struct Event {
    pub callee: Callee,
    /// The address that was called, where the callee is a pointer.
    pub target: int,
    pub args: Seq<int>,
}

/// What a run ends with.
pub struct Final {
    pub mem: Map<int, int>,
    pub log: Seq<Event>,
    pub result: Option<int>,
    /// Whether `unreachable` was reached: a call before it does not return.
    pub trapped: bool,
}

/// A run on its way.
pub struct Running {
    pub pc: int,
    pub regs: Map<int, int>,
    pub mem: Map<int, int>,
    pub log: Seq<Event>,
    pub passed: Seq<int>,
    /// The block at hand, and the one that control came from.
    pub here: Label,
    pub before: Label,
}

pub enum Machine {
    On(Running),
    Done(Final),
}

/// A result as a 64-bit integer.
pub open spec fn wrap(n: int) -> int {
    if i64::MIN <= n <= i64::MAX {
        n
    } else {
        let m = n % 0x1_0000_0000_0000_0000;
        if m > i64::MAX {
            m - 0x1_0000_0000_0000_0000
        } else {
            m
        }
    }
}

/// A 64-bit integer read without sign.
pub open spec fn unsigned(n: int) -> int {
    if n < 0 {
        n + 0x1_0000_0000_0000_0000
    } else {
        n
    }
}

pub open spec fn value(w: World, r: Running, v: Val) -> int {
    match v {
        Val::Reg(n) => r.regs[n as int],
        Val::Param(n) => w.args[n as int],
        Val::Int(n) => n as int,
        Val::Bool(b) => if b {
            1
        } else {
            0
        },
        Val::Null => 0,
        Val::Fixed(f) => (w.fixed)(f),
        Val::Lit(n) => (w.lits)(n as int),
        Val::Float(n) => (w.floats.literal)(n as int),
        _ => 0,
    }
}

/// Division toward zero.
pub open spec fn divided(a: int, b: int) -> int {
    if b == 0 {
        0
    } else if (a < 0) == (b < 0) {
        magnitude(a) / magnitude(b)
    } else {
        -(magnitude(a) / magnitude(b))
    }
}

pub open spec fn magnitude(a: int) -> int {
    if a < 0 {
        -a
    } else {
        a
    }
}

pub open spec fn operate(op: Op, a: int, b: int) -> int {
    match op {
        Op::Add => wrap(a + b),
        Op::Sub => wrap(a - b),
        Op::Mul => wrap(a * b),
        Op::SDiv => wrap(divided(a, b)),
        Op::SRem => a - divided(a, b) * b,
        Op::Xor => ((a as i64) ^ (b as i64)) as int,
        _ => 0,
    }
}

/// An operation on numbers of either kind.
pub open spec fn calculate(f: Floats, op: Op, a: int, b: int) -> int {
    match op {
        Op::FAdd => (f.sum)(a, b),
        Op::FSub => (f.difference)(a, b),
        Op::FMul => (f.product)(a, b),
        Op::FDiv => (f.quotient)(a, b),
        Op::FRem => (f.remainder)(a, b),
        _ => operate(op, a, b),
    }
}

/// A comparison of numbers of either kind.
pub open spec fn compares(f: Floats, pred: Pred, a: int, b: int) -> bool {
    match pred {
        Pred::FEq => (f.equal)(a, b),
        Pred::FNe => (f.unequal)(a, b),
        Pred::FLt => (f.less)(a, b),
        Pred::FLe => (f.less_or_equal)(a, b),
        Pred::FGt => (f.greater)(a, b),
        Pred::FGe => (f.greater_or_equal)(a, b),
        _ => holds(pred, a, b),
    }
}

pub open spec fn holds(pred: Pred, a: int, b: int) -> bool {
    match pred {
        Pred::Eq => a == b,
        Pred::Ne => a != b,
        Pred::Slt => a < b,
        Pred::Sle => a <= b,
        Pred::Sgt => a > b,
        Pred::Sge => a >= b,
        Pred::Ult => unsigned(a) < unsigned(b),
        _ => false,
    }
}

/// Memory with `n` bytes copied; words are moved whole.
pub open spec fn copied(mem: Map<int, int>, to: int, from: int, n: int) -> Map<int, int> {
    Map::new(
        |a: int| true,
        |a: int|
            if to <= a < to + n {
                mem[from + (a - to)]
            } else {
                mem[a]
            },
    )
}

/// Where a block begins.
pub open spec fn place(code: Seq<Ins>, l: Label) -> int {
    choose|i: int| 0 <= i < code.len() && code[i] == Ins::Label(l)
}

/// The next instruction, with a result.
pub open spec fn yields(r: Running, n: int) -> Machine {
    Machine::On(Running { pc: r.pc + 1, regs: r.regs.insert(r.pc, n), ..r })
}

pub open spec fn jump(code: Seq<Ins>, r: Running, l: Label) -> Machine {
    Machine::On(Running { pc: place(code, l), before: r.here, ..r })
}

/// One instruction.
pub open spec fn tick(code: Seq<Ins>, w: World, m: Machine) -> Machine {
    match m {
        Machine::Done(_) => m,
        Machine::On(r) => match code[r.pc] {
            Ins::Label(l) => Machine::On(Running { pc: r.pc + 1, here: l, ..r }),
            Ins::Br(l) => jump(code, r, l),
            Ins::CondBr(c, a, b) => jump(
                code,
                r,
                if value(w, r, c) != 0 {
                    a
                } else {
                    b
                },
            ),
            Ins::Ret(_, v) => Machine::Done(
                Final {
                    mem: r.mem,
                    log: r.log,
                    result: Some(value(w, r, v)),
                    trapped: false,
                },
            ),
            Ins::RetVoid => Machine::Done(
                Final { mem: r.mem, log: r.log, result: None, trapped: false },
            ),
            Ins::Unreachable => Machine::Done(
                Final { mem: r.mem, log: r.log, result: None, trapped: true },
            ),
            Ins::Store(_, v, p) => Machine::On(
                Running {
                    pc: r.pc + 1,
                    mem: r.mem.insert(value(w, r, p), value(w, r, v)),
                    ..r
                },
            ),
            Ins::Alloca(_) => yields(r, (w.slots)(r.pc)),
            Ins::Load(_, p) => yields(r, r.mem[value(w, r, p)]),
            Ins::Bin(op, _, a, b) => yields(
                r,
                calculate(w.floats, op, value(w, r, a), value(w, r, b)),
            ),
            Ins::FNeg(v) => yields(r, (w.floats.negative)(value(w, r, v))),
            Ins::Cmp(pred, _, a, b) => yields(
                r,
                if compares(w.floats, pred, value(w, r, a), value(w, r, b)) {
                    1
                } else {
                    0
                },
            ),
            Ins::Convert(_, v) => yields(r, value(w, r, v)),
            Ins::Gep(t, p, x) => yields(
                r,
                value(w, r, p) + (if t == Ty::I64 {
                    8 * value(w, r, x)
                } else {
                    value(w, r, x)
                }),
            ),
            Ins::Select(c, _, a, b) => yields(
                r,
                if value(w, r, c) != 0 {
                    value(w, r, a)
                } else {
                    value(w, r, b)
                },
            ),
            Ins::Phi(_, a, la, b, lb) => yields(
                r,
                if r.before == la {
                    value(w, r, a)
                } else {
                    value(w, r, b)
                },
            ),
            Ins::Arg(_, v) => Machine::On(
                Running { pc: r.pc + 1, passed: r.passed.push(value(w, r, v)), ..r },
            ),
            Ins::Call(_, callee, _) => Machine::On(
                Running {
                    pc: r.pc + 1,
                    regs: r.regs.insert(r.pc, (w.returns)(r.log.len() as int)),
                    log: r.log.push(
                        Event {
                            callee,
                            target: match callee {
                                Callee::Pointer(v) => value(w, r, v),
                                _ => 0,
                            },
                            args: r.passed,
                        },
                    ),
                    passed: Seq::empty(),
                    ..r
                },
            ),
            Ins::Memcpy(d, s, n, _) => Machine::On(
                Running {
                    pc: r.pc + 1,
                    mem: copied(r.mem, value(w, r, d), value(w, r, s), value(w, r, n)),
                    ..r
                },
            ),
            _ => m,
        },
    }
}

/// `n` instructions.
pub open spec fn ticks(code: Seq<Ins>, w: World, m: Machine, n: nat) -> Machine
    decreases n,
{
    if n == 0 {
        m
    } else {
        ticks(code, w, tick(code, w, m), (n - 1) as nat)
    }
}

/// Whether a run from `m` on ends with `f`.
pub open spec fn ends(code: Seq<Ins>, w: World, m: Machine, f: Final) -> bool {
    exists|n: nat| #[trigger] ticks(code, w, m, n) == Machine::Done(f)
}

/// The start of a function.
pub open spec fn started(mem: Map<int, int>) -> Machine {
    let nowhere = Label { mark: Mark::Entry, at: 0 };
    Machine::On(
        Running {
            pc: 0,
            regs: Map::empty(),
            mem,
            log: Seq::empty(),
            passed: Seq::empty(),
            here: nowhere,
            before: nowhere,
        },
    )
}

/// Whether a function, run on some memory, ends with `f`.
pub open spec fn comes_to(code: Seq<Ins>, w: World, mem: Map<int, int>, f: Final) -> bool {
    ends(code, w, started(mem), f)
}

pub open spec fn calls_rt(rt: Rt, args: Seq<int>) -> Event {
    Event { callee: Callee::Runtime(rt), target: 0, args }
}

pub open spec fn calls_c(c: Libc, args: Seq<int>) -> Event {
    Event { callee: Callee::C(c), target: 0, args }
}

// ----- running ------------------------------------------------------------------------------
/// A run that ends after some ticks ends.
pub(crate) proof fn lemma_later(code: Seq<Ins>, w: World, m: Machine, n: nat, f: Final)
    requires
        ends(code, w, ticks(code, w, m, n), f),
    ensures
        ends(code, w, m, f),
    decreases n,
{
    if n > 0 {
        let next = tick(code, w, m);
        lemma_later(code, w, next, (n - 1) as nat, f);
        let k = choose|k: nat| #[trigger] ticks(code, w, next, k) == Machine::Done(f);
        assert(ticks(code, w, m, k + 1) == Machine::Done(f));
    }
}

/// A product with a small number.
proof fn lemma_times(a: int, b: int, c: int)
    requires
        b == 8 || b == 2,
        c == a * b,
        i64::MIN <= c <= i64::MAX,
    ensures
        operate(Op::Mul, a, b) == c,
{
}

/// Ticks add up.
pub(crate) proof fn lemma_ticks_sum(code: Seq<Ins>, w: World, m: Machine, a: nat, b: nat)
    ensures
        ticks(code, w, m, a + b) == ticks(code, w, ticks(code, w, m, a), b),
    decreases a,
{
    if a > 0 {
        lemma_ticks_sum(code, w, tick(code, w, m), (a - 1) as nat, b);
    }
}

/// A label that stands once is where a jump to it goes.
pub(crate) proof fn lemma_place(code: Seq<Ins>, l: Label, k: int)
    requires
        0 <= k < code.len(),
        code[k] == Ins::Label(l),
        forall|i: int| 0 <= i < code.len() && #[trigger] code[i] == Ins::Label(l) ==> i == k,
    ensures
        place(code, l) == k,
{
}

pub open spec fn mark(m: Mark) -> Label {
    Label { mark: m, at: 0 }
}

/// The instructions of `xia_release`.
proof fn lemma_release_code()
    ensures
        release_code().len() == 56,
        release_code()[0] == (Ins::Label(Label { mark: Mark::Entry, at: 0 })),
        release_code()[1] == (Ins::Cmp(Pred::Eq, Ty::Ptr, Val::Param(0), Val::Null)),
        release_code()[2]
            == (Ins::CondBr(Val::Reg(1), Label { mark: Mark::Done, at: 0 },
            Label { mark: Mark::Check, at: 0 })),
        release_code()[3] == (Ins::Label(Label { mark: Mark::Check, at: 0 })),
        release_code()[4] == (Ins::Gep(Ty::I8, Val::Param(0), Val::Int(-8 as i64))),
        release_code()[5] == (Ins::Load(Ty::I64, Val::Reg(4))),
        release_code()[6] == (Ins::Cmp(Pred::Slt, Ty::I64, Val::Reg(5), Val::Int(0))),
        release_code()[7]
            == (Ins::CondBr(Val::Reg(6), Label { mark: Mark::Done, at: 0 },
            Label { mark: Mark::Dec, at: 0 })),
        release_code()[8] == (Ins::Label(Label { mark: Mark::Dec, at: 0 })),
        release_code()[9] == (Ins::Bin(Op::Sub, Ty::I64, Val::Reg(5), Val::Int(1))),
        release_code()[10] == (Ins::Cmp(Pred::Eq, Ty::I64, Val::Reg(9), Val::Int(0))),
        release_code()[11]
            == (Ins::CondBr(Val::Reg(10), Label { mark: Mark::Dead, at: 0 },
            Label { mark: Mark::Store, at: 0 })),
        release_code()[12] == (Ins::Label(Label { mark: Mark::Dead, at: 0 })),
        release_code()[13] == (Ins::Gep(Ty::I8, Val::Param(0), Val::Int(-16 as i64))),
        release_code()[14] == (Ins::Load(Ty::I64, Val::Reg(13))),
        release_code()[15] == (Ins::Cmp(Pred::Eq, Ty::I64, Val::Reg(14), Val::Int(0))),
        release_code()[16]
            == (Ins::CondBr(Val::Reg(15), Label { mark: Mark::FreeBlock, at: 0 },
            Label { mark: Mark::Owner, at: 0 })),
        release_code()[17] == (Ins::Label(Label { mark: Mark::Owner, at: 0 })),
        release_code()[18] == (Ins::Cmp(Pred::Ult, Ty::I64, Val::Reg(14), Val::Int(3))),
        release_code()[19]
            == (Ins::CondBr(Val::Reg(18), Label { mark: Mark::Arr, at: 0 },
            Label { mark: Mark::Drop, at: 0 })),
        release_code()[20] == (Ins::Label(Label { mark: Mark::Drop, at: 0 })),
        release_code()[21] == (Ins::Convert(Conv::WordPtr, Val::Reg(14))),
        release_code()[22] == (Ins::Arg(Ty::Ptr, Val::Param(0))),
        release_code()[23] == (Ins::Call(Ty::Void, Callee::Pointer(Val::Reg(21)), 1)),
        release_code()[24] == (Ins::Br(Label { mark: Mark::FreeBlock, at: 0 })),
        release_code()[25] == (Ins::Label(Label { mark: Mark::Arr, at: 0 })),
        release_code()[26] == (Ins::Load(Ty::I64, Val::Param(0))),
        release_code()[27] == (Ins::Gep(Ty::I8, Val::Param(0), Val::Int(16))),
        release_code()[28] == (Ins::Load(Ty::Ptr, Val::Reg(27))),
        release_code()[29] == (Ins::Cmp(Pred::Eq, Ty::I64, Val::Reg(14), Val::Int(2))),
        release_code()[30]
            == (Ins::CondBr(Val::Reg(29), Label { mark: Mark::ElemLoop, at: 0 },
            Label { mark: Mark::FreeData, at: 0 })),
        release_code()[31] == (Ins::Label(Label { mark: Mark::ElemLoop, at: 0 })),
        release_code()[32]
            == (Ins::Phi(Ty::I64, Val::Int(0), Label { mark: Mark::Arr, at: 0 }, Val::Reg(41),
            Label { mark: Mark::ElemBody, at: 0 })),
        release_code()[33] == (Ins::Cmp(Pred::Slt, Ty::I64, Val::Reg(32), Val::Reg(26))),
        release_code()[34]
            == (Ins::CondBr(Val::Reg(33), Label { mark: Mark::ElemBody, at: 0 },
            Label { mark: Mark::FreeData, at: 0 })),
        release_code()[35] == (Ins::Label(Label { mark: Mark::ElemBody, at: 0 })),
        release_code()[36] == (Ins::Gep(Ty::I64, Val::Reg(28), Val::Reg(32))),
        release_code()[37] == (Ins::Load(Ty::I64, Val::Reg(36))),
        release_code()[38] == (Ins::Convert(Conv::WordPtr, Val::Reg(37))),
        release_code()[39] == (Ins::Arg(Ty::Ptr, Val::Reg(38))),
        release_code()[40] == (Ins::Call(Ty::Void, Callee::Runtime(Rt::Release), 1)),
        release_code()[41] == (Ins::Bin(Op::Add, Ty::I64, Val::Reg(32), Val::Int(1))),
        release_code()[42] == (Ins::Br(Label { mark: Mark::ElemLoop, at: 0 })),
        release_code()[43] == (Ins::Label(Label { mark: Mark::FreeData, at: 0 })),
        release_code()[44] == (Ins::Arg(Ty::Ptr, Val::Reg(28))),
        release_code()[45] == (Ins::Call(Ty::Void, Callee::C(Libc::Free), 1)),
        release_code()[46] == (Ins::Br(Label { mark: Mark::FreeBlock, at: 0 })),
        release_code()[47] == (Ins::Label(Label { mark: Mark::FreeBlock, at: 0 })),
        release_code()[48] == (Ins::Arg(Ty::Ptr, Val::Reg(13))),
        release_code()[49] == (Ins::Call(Ty::Void, Callee::C(Libc::Free), 1)),
        release_code()[50] == (Ins::Br(Label { mark: Mark::Done, at: 0 })),
        release_code()[51] == (Ins::Label(Label { mark: Mark::Store, at: 0 })),
        release_code()[52] == (Ins::Store(Ty::I64, Val::Reg(9), Val::Reg(4))),
        release_code()[53] == (Ins::Br(Label { mark: Mark::Done, at: 0 })),
        release_code()[54] == (Ins::Label(Label { mark: Mark::Done, at: 0 })),
        release_code()[55] == (Ins::RetVoid),
{
    reveal(release_code);
}

/// The instructions of `xia_arr_get`.
proof fn lemma_arr_get_code()
    ensures
        arr_get_code().len() == 25,
        arr_get_code()[0] == (Ins::Label(Label { mark: Mark::Entry, at: 0 })),
        arr_get_code()[1] == (Ins::Load(Ty::I64, Val::Param(0))),
        arr_get_code()[2] == (Ins::Cmp(Pred::Ult, Ty::I64, Val::Param(1), Val::Reg(1))),
        arr_get_code()[3]
            == (Ins::CondBr(Val::Reg(2), Label { mark: Mark::Load, at: 0 },
            Label { mark: Mark::Trap, at: 0 })),
        arr_get_code()[4] == (Ins::Label(Label { mark: Mark::Trap, at: 0 })),
        arr_get_code()[5] == (Ins::Arg(Ty::I64, Val::Param(1))),
        arr_get_code()[6] == (Ins::Arg(Ty::I64, Val::Reg(1))),
        arr_get_code()[7] == (Ins::Call(Ty::Void, Callee::Runtime(Rt::BoundsFail), 2)),
        arr_get_code()[8] == (Ins::Unreachable),
        arr_get_code()[9] == (Ins::Label(Label { mark: Mark::Load, at: 0 })),
        arr_get_code()[10] == (Ins::Gep(Ty::I8, Val::Param(0), Val::Int(16))),
        arr_get_code()[11] == (Ins::Load(Ty::Ptr, Val::Reg(10))),
        arr_get_code()[12] == (Ins::Gep(Ty::I64, Val::Reg(11), Val::Param(1))),
        arr_get_code()[13] == (Ins::Load(Ty::I64, Val::Reg(12))),
        arr_get_code()[14] == (Ins::Gep(Ty::I8, Val::Param(0), Val::Int(-16 as i64))),
        arr_get_code()[15] == (Ins::Load(Ty::I64, Val::Reg(14))),
        arr_get_code()[16] == (Ins::Cmp(Pred::Eq, Ty::I64, Val::Reg(15), Val::Int(2))),
        arr_get_code()[17]
            == (Ins::CondBr(Val::Reg(16), Label { mark: Mark::Retain, at: 0 },
            Label { mark: Mark::Done, at: 0 })),
        arr_get_code()[18] == (Ins::Label(Label { mark: Mark::Retain, at: 0 })),
        arr_get_code()[19] == (Ins::Convert(Conv::WordPtr, Val::Reg(13))),
        arr_get_code()[20] == (Ins::Arg(Ty::Ptr, Val::Reg(19))),
        arr_get_code()[21] == (Ins::Call(Ty::Void, Callee::Runtime(Rt::Retain), 1)),
        arr_get_code()[22] == (Ins::Br(Label { mark: Mark::Done, at: 0 })),
        arr_get_code()[23] == (Ins::Label(Label { mark: Mark::Done, at: 0 })),
        arr_get_code()[24] == (Ins::Ret(Ty::I64, Val::Reg(13))),
{
    reveal(arr_get_code);
}

/// The instructions of `xia_arr_set`.
proof fn lemma_arr_set_code()
    ensures
        arr_set_code().len() == 29,
        arr_set_code()[0] == (Ins::Label(Label { mark: Mark::Entry, at: 0 })),
        arr_set_code()[1] == (Ins::Load(Ty::I64, Val::Param(0))),
        arr_set_code()[2] == (Ins::Cmp(Pred::Ult, Ty::I64, Val::Param(1), Val::Reg(1))),
        arr_set_code()[3]
            == (Ins::CondBr(Val::Reg(2), Label { mark: Mark::Check, at: 0 },
            Label { mark: Mark::Trap, at: 0 })),
        arr_set_code()[4] == (Ins::Label(Label { mark: Mark::Trap, at: 0 })),
        arr_set_code()[5] == (Ins::Arg(Ty::I64, Val::Param(1))),
        arr_set_code()[6] == (Ins::Arg(Ty::I64, Val::Reg(1))),
        arr_set_code()[7] == (Ins::Call(Ty::Void, Callee::Runtime(Rt::BoundsFail), 2)),
        arr_set_code()[8] == (Ins::Unreachable),
        arr_set_code()[9] == (Ins::Label(Label { mark: Mark::Check, at: 0 })),
        arr_set_code()[10] == (Ins::Gep(Ty::I8, Val::Param(0), Val::Int(16))),
        arr_set_code()[11] == (Ins::Load(Ty::Ptr, Val::Reg(10))),
        arr_set_code()[12] == (Ins::Gep(Ty::I64, Val::Reg(11), Val::Param(1))),
        arr_set_code()[13] == (Ins::Gep(Ty::I8, Val::Param(0), Val::Int(-16 as i64))),
        arr_set_code()[14] == (Ins::Load(Ty::I64, Val::Reg(13))),
        arr_set_code()[15] == (Ins::Cmp(Pred::Eq, Ty::I64, Val::Reg(14), Val::Int(2))),
        arr_set_code()[16]
            == (Ins::CondBr(Val::Reg(15), Label { mark: Mark::Swap, at: 0 },
            Label { mark: Mark::Write, at: 0 })),
        arr_set_code()[17] == (Ins::Label(Label { mark: Mark::Swap, at: 0 })),
        arr_set_code()[18] == (Ins::Convert(Conv::WordPtr, Val::Param(2))),
        arr_set_code()[19] == (Ins::Arg(Ty::Ptr, Val::Reg(18))),
        arr_set_code()[20] == (Ins::Call(Ty::Void, Callee::Runtime(Rt::Retain), 1)),
        arr_set_code()[21] == (Ins::Load(Ty::I64, Val::Reg(12))),
        arr_set_code()[22] == (Ins::Convert(Conv::WordPtr, Val::Reg(21))),
        arr_set_code()[23] == (Ins::Arg(Ty::Ptr, Val::Reg(22))),
        arr_set_code()[24] == (Ins::Call(Ty::Void, Callee::Runtime(Rt::Release), 1)),
        arr_set_code()[25] == (Ins::Br(Label { mark: Mark::Write, at: 0 })),
        arr_set_code()[26] == (Ins::Label(Label { mark: Mark::Write, at: 0 })),
        arr_set_code()[27] == (Ins::Store(Ty::I64, Val::Param(2), Val::Reg(12))),
        arr_set_code()[28] == (Ins::RetVoid),
{
    reveal(arr_set_code);
}

/// The instructions of `xia_arr_push`.
proof fn lemma_arr_push_code()
    ensures
        arr_push_code().len() == 38,
        arr_push_code()[0] == (Ins::Label(Label { mark: Mark::Entry, at: 0 })),
        arr_push_code()[1] == (Ins::Load(Ty::I64, Val::Param(0))),
        arr_push_code()[2] == (Ins::Gep(Ty::I8, Val::Param(0), Val::Int(8))),
        arr_push_code()[3] == (Ins::Load(Ty::I64, Val::Reg(2))),
        arr_push_code()[4] == (Ins::Cmp(Pred::Eq, Ty::I64, Val::Reg(1), Val::Reg(3))),
        arr_push_code()[5]
            == (Ins::CondBr(Val::Reg(4), Label { mark: Mark::Grow, at: 0 },
            Label { mark: Mark::Store, at: 0 })),
        arr_push_code()[6] == (Ins::Label(Label { mark: Mark::Grow, at: 0 })),
        arr_push_code()[7] == (Ins::Bin(Op::Mul, Ty::I64, Val::Reg(3), Val::Int(2))),
        arr_push_code()[8] == (Ins::Bin(Op::Mul, Ty::I64, Val::Reg(7), Val::Int(8))),
        arr_push_code()[9] == (Ins::Arg(Ty::I64, Val::Reg(8))),
        arr_push_code()[10] == (Ins::Call(Ty::Ptr, Callee::C(Libc::Malloc), 1)),
        arr_push_code()[11] == (Ins::Gep(Ty::I8, Val::Param(0), Val::Int(16))),
        arr_push_code()[12] == (Ins::Load(Ty::Ptr, Val::Reg(11))),
        arr_push_code()[13] == (Ins::Bin(Op::Mul, Ty::I64, Val::Reg(1), Val::Int(8))),
        arr_push_code()[14] == (Ins::Memcpy(Val::Reg(10), Val::Reg(12), Val::Reg(13), 8)),
        arr_push_code()[15] == (Ins::Arg(Ty::Ptr, Val::Reg(12))),
        arr_push_code()[16] == (Ins::Call(Ty::Void, Callee::C(Libc::Free), 1)),
        arr_push_code()[17] == (Ins::Store(Ty::Ptr, Val::Reg(10), Val::Reg(11))),
        arr_push_code()[18] == (Ins::Store(Ty::I64, Val::Reg(7), Val::Reg(2))),
        arr_push_code()[19] == (Ins::Br(Label { mark: Mark::Store, at: 0 })),
        arr_push_code()[20] == (Ins::Label(Label { mark: Mark::Store, at: 0 })),
        arr_push_code()[21] == (Ins::Gep(Ty::I8, Val::Param(0), Val::Int(-16 as i64))),
        arr_push_code()[22] == (Ins::Load(Ty::I64, Val::Reg(21))),
        arr_push_code()[23] == (Ins::Cmp(Pred::Eq, Ty::I64, Val::Reg(22), Val::Int(2))),
        arr_push_code()[24]
            == (Ins::CondBr(Val::Reg(23), Label { mark: Mark::Retain, at: 0 },
            Label { mark: Mark::Write, at: 0 })),
        arr_push_code()[25] == (Ins::Label(Label { mark: Mark::Retain, at: 0 })),
        arr_push_code()[26] == (Ins::Convert(Conv::WordPtr, Val::Param(1))),
        arr_push_code()[27] == (Ins::Arg(Ty::Ptr, Val::Reg(26))),
        arr_push_code()[28] == (Ins::Call(Ty::Void, Callee::Runtime(Rt::Retain), 1)),
        arr_push_code()[29] == (Ins::Br(Label { mark: Mark::Write, at: 0 })),
        arr_push_code()[30] == (Ins::Label(Label { mark: Mark::Write, at: 0 })),
        arr_push_code()[31] == (Ins::Gep(Ty::I8, Val::Param(0), Val::Int(16))),
        arr_push_code()[32] == (Ins::Load(Ty::Ptr, Val::Reg(31))),
        arr_push_code()[33] == (Ins::Gep(Ty::I64, Val::Reg(32), Val::Reg(1))),
        arr_push_code()[34] == (Ins::Store(Ty::I64, Val::Param(1), Val::Reg(33))),
        arr_push_code()[35] == (Ins::Bin(Op::Add, Ty::I64, Val::Reg(1), Val::Int(1))),
        arr_push_code()[36] == (Ins::Store(Ty::I64, Val::Reg(35), Val::Param(0))),
        arr_push_code()[37] == (Ins::RetVoid),
{
    reveal(arr_push_code);
}

// ----- retain -------------------------------------------------------------------------------
/// `xia_retain` counts one reference up; null and immortal values stay as they
/// are.
pub proof fn law_retain_counts_up(w: World, mem: Map<int, int>, p: int)
    requires
        w.args == seq![p],
        p != 0 ==> i64::MIN <= mem[p - 8] < i64::MAX,
    ensures
        comes_to(
            retain_code(),
            w,
            mem,
            Final {
                mem: if p == 0 || mem[p - 8] < 0 {
                    mem
                } else {
                    mem.insert(p - 8, mem[p - 8] + 1)
                },
                log: Seq::empty(),
                result: None,
                trapped: false,
            },
        ),
{
    reveal(retain_code);
    let code = retain_code();
    lemma_place(code, mark(Mark::Check), 3);
    lemma_place(code, mark(Mark::Inc), 8);
    lemma_place(code, mark(Mark::Done), 12);
    reveal_with_fuel(ticks, 15);
    let m = started(mem);
    let f = Final {
        mem: if p == 0 || mem[p - 8] < 0 {
            mem
        } else {
            mem.insert(p - 8, mem[p - 8] + 1)
        },
        log: Seq::empty(),
        result: None,
        trapped: false,
    };
    if p == 0 {
        assert(ticks(code, w, m, 5) == Machine::Done(f));
    } else if mem[p - 8] < 0 {
        assert(ticks(code, w, m, 10) == Machine::Done(f));
    } else {
        assert(ticks(code, w, m, 14) == Machine::Done(f));
    }
}

// ----- release ------------------------------------------------------------------------------
/// The releases of the first `n` words of a buffer.
pub open spec fn elem_releases(mem: Map<int, int>, data: int, n: nat) -> Seq<Event> {
    Seq::new(n, |i: int| calls_rt(Rt::Release, seq![mem[data + 8 * i]]))
}

/// How a dead value goes, by its kind: a string, or a struct or enum without
/// heap data, is freed; an array frees its buffer first, and before that
/// releases each heap element; a destructor is called for everything else.
pub open spec fn last_rites(mem: Map<int, int>, p: int) -> Seq<Event> {
    let kind = mem[p - 16];
    let data = mem[p + 16];
    let block = calls_c(Libc::Free, seq![p - 16]);
    if kind == 0 {
        seq![block]
    } else if kind == 1 {
        seq![calls_c(Libc::Free, seq![data]), block]
    } else if kind == 2 {
        elem_releases(mem, data, mem[p] as nat) + seq![calls_c(Libc::Free, seq![data]), block]
    } else {
        seq![Event { callee: Callee::Pointer(Val::Reg(21)), target: kind, args: seq![p] }, block]
    }
}

/// What `xia_release` ends with.
pub open spec fn released(mem: Map<int, int>, p: int) -> Final {
    let rc = mem[p - 8];
    if p == 0 || rc < 0 {
        Final { mem, log: Seq::empty(), result: None, trapped: false }
    } else if rc == 1 {
        Final { mem, log: last_rites(mem, p), result: None, trapped: false }
    } else {
        Final { mem: mem.insert(p - 8, rc - 1), log: Seq::empty(), result: None, trapped: false }
    }
}

/// At the head of the loop over the elements, `i` of them are released.
pub open spec fn releasing(r: Running, mem: Map<int, int>, p: int, i: nat) -> bool {
    &&& r.pc == 31
    &&& r.regs[26] == mem[p]
    &&& r.regs[28] == mem[p + 16]
    &&& r.regs[13] == p - 16
    &&& r.mem == mem
    &&& r.passed == Seq::<int>::empty()
    &&& r.log == elem_releases(mem, mem[p + 16], i)
    &&& if i == 0 {
        r.before == mark(Mark::Arr)
    } else {
        r.before == mark(Mark::ElemBody) && r.regs[41] == i
    }
}

proof fn lemma_release_places()
    ensures
        place(release_code(), mark(Mark::Check)) == 3,
        place(release_code(), mark(Mark::Dec)) == 8,
        place(release_code(), mark(Mark::Dead)) == 12,
        place(release_code(), mark(Mark::Owner)) == 17,
        place(release_code(), mark(Mark::Drop)) == 20,
        place(release_code(), mark(Mark::Arr)) == 25,
        place(release_code(), mark(Mark::ElemLoop)) == 31,
        place(release_code(), mark(Mark::ElemBody)) == 35,
        place(release_code(), mark(Mark::FreeData)) == 43,
        place(release_code(), mark(Mark::FreeBlock)) == 47,
        place(release_code(), mark(Mark::Store)) == 51,
        place(release_code(), mark(Mark::Done)) == 54,
{
    lemma_release_code();
    let code = release_code();
    lemma_place(code, mark(Mark::Check), 3);
    lemma_place(code, mark(Mark::Dec), 8);
    lemma_place(code, mark(Mark::Dead), 12);
    lemma_place(code, mark(Mark::Owner), 17);
    lemma_place(code, mark(Mark::Drop), 20);
    lemma_place(code, mark(Mark::Arr), 25);
    lemma_place(code, mark(Mark::ElemLoop), 31);
    lemma_place(code, mark(Mark::ElemBody), 35);
    lemma_place(code, mark(Mark::FreeData), 43);
    lemma_place(code, mark(Mark::FreeBlock), 47);
    lemma_place(code, mark(Mark::Store), 51);
    lemma_place(code, mark(Mark::Done), 54);
}

/// At the end: the block is freed.
proof fn lemma_free_block(w: World, r: Running, p: int)
    requires
        r.pc == 47,
        r.regs[13] == p - 16,
        r.passed == Seq::<int>::empty(),
    ensures
        ends(
            release_code(),
            w,
            Machine::On(r),
            Final {
                mem: r.mem,
                log: r.log.push(calls_c(Libc::Free, seq![p - 16])),
                result: None,
                trapped: false,
            },
        ),
{
    lemma_release_code();
    let code = release_code();
    lemma_release_places();
    assert(Seq::<int>::empty().push(p - 16) =~= seq![p - 16]);
    reveal_with_fuel(ticks, 7);
    let f = Final {
        mem: r.mem,
        log: r.log.push(calls_c(Libc::Free, seq![p - 16])),
        result: None,
        trapped: false,
    };
    assert(ticks(code, w, Machine::On(r), 6) == Machine::Done(f));
}

/// Before that: the buffer of an array is freed.
proof fn lemma_free_data(w: World, r: Running, p: int, data: int)
    requires
        r.pc == 43,
        r.regs[13] == p - 16,
        r.regs[28] == data,
        r.passed == Seq::<int>::empty(),
    ensures
        ends(
            release_code(),
            w,
            Machine::On(r),
            Final {
                mem: r.mem,
                log: r.log.push(calls_c(Libc::Free, seq![data])).push(
                    calls_c(Libc::Free, seq![p - 16]),
                ),
                result: None,
                trapped: false,
            },
        ),
{
    lemma_release_code();
    let code = release_code();
    lemma_release_places();
    assert(Seq::<int>::empty().push(data) =~= seq![data]);
    reveal_with_fuel(ticks, 5);
    let m = ticks(code, w, Machine::On(r), 4);
    let r1 = m->On_0;
    assert(m is On && r1.pc == 47 && r1.mem == r.mem);
    assert(r1.log == r.log.push(calls_c(Libc::Free, seq![data])));
    lemma_free_block(w, r1, p);
    lemma_later(
        code,
        w,
        Machine::On(r),
        4,
        Final {
            mem: r.mem,
            log: r1.log.push(calls_c(Libc::Free, seq![p - 16])),
            result: None,
            trapped: false,
        },
    );
}

/// The head of the loop over the elements: on to the next, or past them.
proof fn lemma_elem_head(w: World, r: Running, mem: Map<int, int>, p: int, i: nat)
    requires
        releasing(r, mem, p, i),
    ensures
        ({
            let m = ticks(release_code(), w, Machine::On(r), 4);
            &&& m is On
            &&& m->On_0 == (Running {
                pc: if i < mem[p] {
                    35
                } else {
                    43
                },
                regs: m->On_0.regs,
                here: mark(Mark::ElemLoop),
                before: mark(Mark::ElemLoop),
                ..r
            })
            &&& m->On_0.regs[32] == i
            &&& m->On_0.regs[13] == r.regs[13]
            &&& m->On_0.regs[26] == r.regs[26]
            &&& m->On_0.regs[28] == r.regs[28]
        }),
{
    lemma_release_code();
    lemma_release_places();
    reveal_with_fuel(ticks, 5);
}

/// The body of the loop: one element is released.
proof fn lemma_elem_body(w: World, r: Running, mem: Map<int, int>, p: int, i: nat)
    requires
        r.pc == 35,
        r.regs[26] == mem[p],
        r.regs[28] == mem[p + 16],
        r.regs[13] == p - 16,
        r.regs[32] == i,
        r.mem == mem,
        r.passed == Seq::<int>::empty(),
        r.log == elem_releases(mem, mem[p + 16], i),
        i < mem[p] <= i64::MAX,
    ensures
        ({
            let m = ticks(release_code(), w, Machine::On(r), 8);
            m is On && releasing(m->On_0, mem, p, i + 1)
        }),
{
    lemma_release_code();
    lemma_release_places();
    let data = mem[p + 16];
    let word = mem[data + 8 * i];
    assert(Seq::<int>::empty().push(word) =~= seq![word]);
    assert(elem_releases(mem, data, i + 1) =~= elem_releases(mem, data, i).push(
        calls_rt(Rt::Release, seq![word]),
    ));
    assert(operate(Op::Add, i as int, 1) == i + 1);
    reveal_with_fuel(ticks, 9);
}

proof fn lemma_releasing(w: World, r: Running, mem: Map<int, int>, p: int, i: nat)
    requires
        releasing(r, mem, p, i),
        i <= mem[p] <= i64::MAX,
        mem[p - 8] == 1,
        mem[p - 16] == 2,
        p != 0,
    ensures
        ends(release_code(), w, Machine::On(r), released(mem, p)),
    decreases mem[p] - i,
{
    let code = release_code();
    let f = released(mem, p);
    let data = mem[p + 16];
    lemma_elem_head(w, r, mem, p, i);
    let m1 = ticks(code, w, Machine::On(r), 4);
    let r1 = m1->On_0;
    if i < mem[p] {
        lemma_elem_body(w, r1, mem, p, i);
        let m2 = ticks(code, w, m1, 8);
        lemma_releasing(w, m2->On_0, mem, p, i + 1);
        lemma_later(code, w, m1, 8, f);
    } else {
        lemma_free_data(w, r1, p, data);
        assert(f.log =~= elem_releases(mem, data, i).push(calls_c(Libc::Free, seq![data])).push(
            calls_c(Libc::Free, seq![p - 16]),
        ));
    }
    lemma_later(code, w, Machine::On(r), 4, f);
}

/// The first steps: to the count of a value that is not null.
proof fn lemma_release_check(w: World, mem: Map<int, int>, p: int)
    requires
        w.args == seq![p],
        p != 0,
    ensures
        ({
            let m = ticks(release_code(), w, started(mem), 8);
            &&& m is On
            &&& m->On_0 == (Running {
                pc: if mem[p - 8] < 0 {
                    54
                } else {
                    8
                },
                regs: m->On_0.regs,
                here: mark(Mark::Check),
                before: mark(Mark::Check),
                ..started(mem)->On_0
            })
            &&& m->On_0.regs[4] == p - 8
            &&& m->On_0.regs[5] == mem[p - 8]
        }),
{
    lemma_release_code();
    lemma_release_places();
    reveal_with_fuel(ticks, 9);
}

/// From a dead value to what its kind asks for.
proof fn lemma_release_dead(w: World, r: Running, p: int)
    requires
        w.args == seq![p],
        r.pc == 8,
        r.regs[4] == p - 8,
        r.regs[5] == 1,
    ensures
        ({
            let kind = r.mem[p - 16];
            let m = ticks(release_code(), w, Machine::On(r), 9);
            &&& m is On
            &&& m->On_0 == (Running {
                pc: if kind == 0 {
                    47
                } else {
                    17
                },
                regs: m->On_0.regs,
                here: mark(Mark::Dead),
                before: mark(Mark::Dead),
                ..r
            })
            &&& m->On_0.regs[13] == p - 16
            &&& m->On_0.regs[14] == kind
        }),
{
    lemma_release_code();
    lemma_release_places();
    assert(operate(Op::Sub, 1, 1) == 0);
    reveal_with_fuel(ticks, 10);
}

/// From an array to its elements, or past them.
proof fn lemma_release_array(w: World, r: Running, p: int)
    requires
        w.args == seq![p],
        r.pc == 17,
        r.regs[13] == p - 16,
        r.regs[14] == 1 || r.regs[14] == 2,
    ensures
        ({
            let m = ticks(release_code(), w, Machine::On(r), 9);
            &&& m is On
            &&& m->On_0 == (Running {
                pc: if r.regs[14] == 2 {
                    31
                } else {
                    43
                },
                regs: m->On_0.regs,
                here: mark(Mark::Arr),
                before: mark(Mark::Arr),
                ..r
            })
            &&& m->On_0.regs[13] == p - 16
            &&& m->On_0.regs[26] == r.mem[p]
            &&& m->On_0.regs[28] == r.mem[p + 16]
        }),
{
    lemma_release_code();
    lemma_release_places();
    reveal_with_fuel(ticks, 10);
}

/// From a value with a destructor through it.
proof fn lemma_release_drop(w: World, r: Running, p: int)
    requires
        w.args == seq![p],
        r.pc == 17,
        r.regs[13] == p - 16,
        !(0 <= r.regs[14] <= 2),
        i64::MIN <= r.regs[14] <= i64::MAX,
        r.passed == Seq::<int>::empty(),
    ensures
        ({
            let m = ticks(release_code(), w, Machine::On(r), 8);
            &&& m is On
            &&& m->On_0 == (Running {
                pc: 47,
                regs: m->On_0.regs,
                log: r.log.push(
                    Event {
                        callee: Callee::Pointer(Val::Reg(21)),
                        target: r.regs[14],
                        args: seq![p],
                    },
                ),
                here: mark(Mark::Drop),
                before: mark(Mark::Drop),
                ..r
            })
            &&& m->On_0.regs[13] == p - 16
        }),
{
    lemma_release_code();
    lemma_release_places();
    assert(Seq::<int>::empty().push(p) =~= seq![p]);
    reveal_with_fuel(ticks, 9);
}

/// `xia_release` counts one reference down; null and immortal values stay as
/// they are. The last reference takes the value with it: arrays free their
/// element buffer (releasing each element first if they are heap values),
/// structs and enums that own heap data are handed to their destructor, and
/// then the block is freed.
pub proof fn law_release_counts_down(w: World, mem: Map<int, int>, p: int)
    requires
        w.args == seq![p],
        p != 0 ==> 0 != mem[p - 8] && i64::MIN <= mem[p - 8] <= i64::MAX,
        p != 0 && mem[p - 8] == 1 ==> i64::MIN <= mem[p - 16] <= i64::MAX,
        p != 0 && mem[p - 8] == 1 && mem[p - 16] == 2 ==> 0 <= mem[p] <= i64::MAX,
    ensures
        comes_to(release_code(), w, mem, released(mem, p)),
{
    lemma_release_code();
    let code = release_code();
    let m0 = started(mem);
    let f = released(mem, p);
    lemma_release_places();
    if p == 0 {
        reveal_with_fuel(ticks, 6);
        assert(ticks(code, w, m0, 5) == Machine::Done(f));
    } else {
        lemma_release_check(w, mem, p);
        let m1 = ticks(code, w, m0, 8);
        let r1 = m1->On_0;
        if mem[p - 8] < 0 {
            reveal_with_fuel(ticks, 3);
            assert(ticks(code, w, m1, 2) == Machine::Done(f));
        } else if mem[p - 8] != 1 {
            lemma_release_store(w, r1, p);
        } else {
            lemma_release_dead(w, r1, p);
            lemma_dying(w, ticks(code, w, m1, 9)->On_0, mem, p);
            lemma_later(code, w, m1, 9, f);
        }
        lemma_later(code, w, m0, 8, f);
    }
}

/// A value that lives on.
proof fn lemma_release_store(w: World, r: Running, p: int)
    requires
        w.args == seq![p],
        r.pc == 8,
        r.regs[4] == p - 8,
        1 < r.regs[5] <= i64::MAX,
    ensures
        ends(
            release_code(),
            w,
            Machine::On(r),
            Final {
                mem: r.mem.insert(p - 8, r.regs[5] - 1),
                log: r.log,
                result: None,
                trapped: false,
            },
        ),
{
    lemma_release_code();
    let code = release_code();
    lemma_release_places();
    assert(operate(Op::Sub, r.regs[5], 1) == r.regs[5] - 1);
    reveal_with_fuel(ticks, 10);
    let f = Final {
        mem: r.mem.insert(p - 8, r.regs[5] - 1),
        log: r.log,
        result: None,
        trapped: false,
    };
    assert(ticks(code, w, Machine::On(r), 9) == Machine::Done(f));
}

/// A value that dies.
proof fn lemma_dying(w: World, r: Running, mem: Map<int, int>, p: int)
    requires
        w.args == seq![p],
        p != 0,
        mem[p - 8] == 1,
        i64::MIN <= mem[p - 16] <= i64::MAX,
        mem[p - 16] == 2 ==> 0 <= mem[p] <= i64::MAX,
        r.pc == (if mem[p - 16] == 0 {
            47int
        } else {
            17
        }),
        r.regs[13] == p - 16,
        r.regs[14] == mem[p - 16],
        r.mem == mem,
        r.passed == Seq::<int>::empty(),
        r.log == Seq::<Event>::empty(),
    ensures
        ends(release_code(), w, Machine::On(r), released(mem, p)),
{
    let code = release_code();
    let f = released(mem, p);
    let kind = mem[p - 16];
    let data = mem[p + 16];
    let none = Seq::<Event>::empty();
    let block = calls_c(Libc::Free, seq![p - 16]);
    if kind == 0 {
        lemma_free_block(w, r, p);
        assert(f.log =~= none.push(block));
    } else if kind == 1 || kind == 2 {
        lemma_release_array(w, r, p);
        let r1 = ticks(code, w, Machine::On(r), 9)->On_0;
        if kind == 1 {
            lemma_free_data(w, r1, p, data);
            assert(f.log =~= none.push(calls_c(Libc::Free, seq![data])).push(block));
        } else {
            assert(elem_releases(mem, data, 0) =~= none);
            lemma_releasing(w, r1, mem, p, 0);
        }
        lemma_later(code, w, Machine::On(r), 9, f);
    } else {
        lemma_release_drop(w, r, p);
        let r1 = ticks(code, w, Machine::On(r), 8)->On_0;
        lemma_free_block(w, r1, p);
        let call = Event { callee: Callee::Pointer(Val::Reg(21)), target: kind, args: seq![p] };
        assert(f.log =~= none.push(call).push(block));
        lemma_later(code, w, Machine::On(r), 8, f);
    }
}

// ----- blocks ---------------------------------------------------------------------------------
/// `xia_new` makes a block of so many words with that kind word and one
/// reference; the value points past its header.
pub proof fn law_new_makes_a_block(w: World, mem: Map<int, int>, kind: int, words: int)
    requires
        w.args == seq![kind, words],
        0 <= words <= 0x0fff_ffff_ffff_fff0,
    ensures
        ({
            let block = (w.returns)(0);
            comes_to(
                new_code(),
                w,
                mem,
                Final {
                    mem: mem.insert(block, kind).insert(block + 8, 1),
                    log: seq![calls_c(Libc::Malloc, seq![8 * words + 16])],
                    result: Some(block + 16),
                    trapped: false,
                },
            )
        }),
{
    let code = new_code();
    let block = (w.returns)(0);
    let m = started(mem);
    let size = 8 * words + 16;
    let log = seq![calls_c(Libc::Malloc, seq![size])];
    let m1 = ticks(code, w, m, 5);
    let r1 = m1->On_0;
    assert(m1 is On && r1.pc == 5 && r1.regs[4] == block && r1.mem == mem && r1.log == log) by {
        reveal(new_code);
        lemma_times(words, 8, 8 * words);
        assert(operate(Op::Add, 8 * words, 16) == size);
        assert(Seq::<int>::empty().push(size) =~= seq![size]);
        assert(log =~= Seq::<Event>::empty().push(calls_c(Libc::Malloc, seq![size])));
        reveal_with_fuel(ticks, 6);
    }
    let f = Final {
        mem: mem.insert(block, kind).insert(block + 8, 1),
        log,
        result: Some(block + 16),
        trapped: false,
    };
    assert(ticks(code, w, m1, 5) == Machine::Done(f)) by {
        reveal(new_code);
        reveal_with_fuel(ticks, 6);
    }
    lemma_later(code, w, m, 5, f);
}

/// `xia_alloc_str` makes a block for so many bytes and a NUL, of kind 0, with
/// one reference; the value points past its header.
pub proof fn law_alloc_str_makes_a_string(w: World, mem: Map<int, int>, n: int)
    requires
        w.args == seq![n],
        0 <= n <= 0x0fff_ffff_ffff_ffff,
    ensures
        ({
            let block = (w.returns)(0);
            comes_to(
                alloc_str_code(),
                w,
                mem,
                Final {
                    mem: mem.insert(block, 0).insert(block + 8, 1),
                    log: seq![calls_c(Libc::Malloc, seq![n + 17])],
                    result: Some(block + 16),
                    trapped: false,
                },
            )
        }),
{
    let code = alloc_str_code();
    let block = (w.returns)(0);
    let m = started(mem);
    let size = n + 17;
    let log = seq![calls_c(Libc::Malloc, seq![size])];
    let m1 = ticks(code, w, m, 4);
    let r1 = m1->On_0;
    assert(m1 is On && r1.pc == 4 && r1.regs[3] == block && r1.mem == mem && r1.log == log) by {
        reveal(alloc_str_code);
        assert(operate(Op::Add, n, 17) == size);
        assert(Seq::<int>::empty().push(size) =~= seq![size]);
        assert(log =~= Seq::<Event>::empty().push(calls_c(Libc::Malloc, seq![size])));
        reveal_with_fuel(ticks, 5);
    }
    let f = Final {
        mem: mem.insert(block, 0).insert(block + 8, 1),
        log,
        result: Some(block + 16),
        trapped: false,
    };
    assert(ticks(code, w, m1, 5) == Machine::Done(f)) by {
        reveal(alloc_str_code);
        reveal_with_fuel(ticks, 6);
    }
    lemma_later(code, w, m, 4, f);
}

/// `xia_arr_new` makes an empty array of that kind with one reference and room
/// for so many words.
pub proof fn law_arr_new_makes_an_array(w: World, mem: Map<int, int>, kind: int, cap: int)
    requires
        w.args == seq![kind, cap],
        0 <= cap <= 0x0fff_ffff_ffff_ffff,
    ensures
        ({
            let arr = (w.returns)(0) + 16;
            comes_to(
                arr_new_code(),
                w,
                mem,
                Final {
                    mem: mem.insert(arr - 16, kind).insert(arr - 8, 1).insert(arr, 0).insert(
                        arr + 8,
                        cap,
                    ).insert(arr + 16, (w.returns)(1)),
                    log: seq![
                        calls_c(Libc::Malloc, seq![40]),
                        calls_c(Libc::Malloc, seq![8 * cap]),
                    ],
                    result: Some(arr),
                    trapped: false,
                },
            )
        }),
{
    reveal(arr_new_code);
    let code = arr_new_code();
    let m = started(mem);
    let arr = (w.returns)(0) + 16;
    lemma_array_handle(w, mem, kind, cap);
    let m1 = ticks(code, w, m, 10);
    let r1 = m1->On_0;
    reveal_with_fuel(ticks, 7);
    assert(Seq::<int>::empty().push(8 * cap) =~= seq![8 * cap]);
    lemma_times(cap, 8, 8 * cap);
    let a = calls_c(Libc::Malloc, seq![40]);
    let b = calls_c(Libc::Malloc, seq![8 * cap]);
    assert(seq![a, b] =~= seq![a].push(b));
    let f = Final {
        mem: mem.insert(arr - 16, kind).insert(arr - 8, 1).insert(arr, 0).insert(
            arr + 8,
            cap,
        ).insert(arr + 16, (w.returns)(1)),
        log: seq![a, b],
        result: Some(arr),
        trapped: false,
    };
    assert(ticks(code, w, m1, 6) == Machine::Done(f));
    lemma_later(code, w, m, 10, f);
}

/// The handle of an array, without its buffer.
proof fn lemma_array_handle(w: World, mem: Map<int, int>, kind: int, cap: int)
    requires
        w.args == seq![kind, cap],
    ensures
        ({
            let arr = (w.returns)(0) + 16;
            let m = ticks(arr_new_code(), w, started(mem), 10);
            &&& m is On
            &&& m->On_0 == (Running {
                pc: 10,
                regs: m->On_0.regs,
                mem: mem.insert(arr - 16, kind).insert(arr - 8, 1).insert(arr, 0).insert(
                    arr + 8,
                    cap,
                ),
                log: seq![calls_c(Libc::Malloc, seq![40])],
                ..started(mem)->On_0
            })
            &&& m->On_0.regs[6] == arr
        }),
{
    let code = arr_new_code();
    let block = (w.returns)(0);
    let arr = block + 16;
    let m = started(mem);
    let log = seq![calls_c(Libc::Malloc, seq![40])];
    let m1 = ticks(code, w, m, 3);
    let r1 = m1->On_0;
    assert(m1 is On && r1 == (Running { pc: 3, regs: r1.regs, log, ..m->On_0 })) by {
        reveal(arr_new_code);
        assert(Seq::<int>::empty().push(40) =~= seq![40]);
        assert(log =~= Seq::<Event>::empty().push(calls_c(Libc::Malloc, seq![40])));
        reveal_with_fuel(ticks, 4);
    }
    assert(r1.regs[2] == block) by {
        reveal(arr_new_code);
        reveal_with_fuel(ticks, 4);
    }
    lemma_ticks_sum(code, w, m, 3, 7);
    let m2 = ticks(code, w, m1, 7);
    let r2 = m2->On_0;
    assert(m2 is On && r2 == (Running {
        pc: 10,
        regs: r2.regs,
        mem: mem.insert(arr - 16, kind).insert(arr - 8, 1).insert(arr, 0).insert(arr + 8, cap),
        ..r1
    }) && r2.regs[6] == arr) by {
        reveal(arr_new_code);
        reveal_with_fuel(ticks, 8);
    }
}

// ----- arrays ---------------------------------------------------------------------------------
/// The retain of a heap element, where an array of that kind has them.
pub open spec fn elem_retain(kind: int, word: int) -> Seq<Event> {
    if kind == 2 {
        seq![calls_rt(Rt::Retain, seq![word])]
    } else {
        Seq::empty()
    }
}

/// An index out of bounds: a diagnostic, and no way back.
pub open spec fn out_of_bounds(mem: Map<int, int>, idx: int, len: int) -> Final {
    Final {
        mem,
        log: seq![calls_rt(Rt::BoundsFail, seq![idx, len])],
        result: None,
        trapped: true,
    }
}

/// `xia_arr_get` loads a word within the bounds, and retains a heap element;
/// outside the bounds it fails.
pub proof fn law_arr_get_is_checked(w: World, mem: Map<int, int>, arr: int, idx: int)
    requires
        w.args == seq![arr, idx],
        0 <= mem[arr] <= i64::MAX,
        i64::MIN <= idx <= i64::MAX,
    ensures
        ({
            let word = mem[mem[arr + 16] + 8 * idx];
            comes_to(
                arr_get_code(),
                w,
                mem,
                if 0 <= idx < mem[arr] {
                    Final {
                        mem,
                        log: elem_retain(mem[arr - 16], word),
                        result: Some(word),
                        trapped: false,
                    }
                } else {
                    out_of_bounds(mem, idx, mem[arr])
                },
            )
        }),
{
    lemma_arr_get_code();
    let code = arr_get_code();
    let m = started(mem);
    let word = mem[mem[arr + 16] + 8 * idx];
    lemma_get_places();
    lemma_get_check(w, mem, arr, idx);
    let m1 = ticks(code, w, m, 4);
    let r1 = m1->On_0;
    if 0 <= idx < mem[arr] {
        let f = Final {
            mem,
            log: elem_retain(mem[arr - 16], word),
            result: Some(word),
            trapped: false,
        };
        lemma_get_load(w, r1, arr, idx);
        let m2 = ticks(code, w, m1, 9);
        lemma_get_end(w, m2->On_0, mem[arr - 16], word);
        lemma_later(code, w, m1, 9, f);
        lemma_later(code, w, m, 4, f);
    } else {
        let f = out_of_bounds(mem, idx, mem[arr]);
        let args = seq![idx, mem[arr]];
        assert(Seq::<int>::empty().push(idx).push(mem[arr]) =~= args);
        assert(f.log =~= Seq::<Event>::empty().push(calls_rt(Rt::BoundsFail, args)));
        reveal_with_fuel(ticks, 6);
        assert(ticks(code, w, m1, 5) == Machine::Done(f));
        lemma_later(code, w, m, 4, f);
    }
}

proof fn lemma_get_places()
    ensures
        place(arr_get_code(), mark(Mark::Trap)) == 4,
        place(arr_get_code(), mark(Mark::Load)) == 9,
        place(arr_get_code(), mark(Mark::Retain)) == 18,
        place(arr_get_code(), mark(Mark::Done)) == 23,
{
    lemma_arr_get_code();
    let code = arr_get_code();
    lemma_place(code, mark(Mark::Trap), 4);
    lemma_place(code, mark(Mark::Load), 9);
    lemma_place(code, mark(Mark::Retain), 18);
    lemma_place(code, mark(Mark::Done), 23);
}

proof fn lemma_get_check(w: World, mem: Map<int, int>, arr: int, idx: int)
    requires
        w.args == seq![arr, idx],
        0 <= mem[arr] <= i64::MAX,
        i64::MIN <= idx <= i64::MAX,
    ensures
        ({
            let m = ticks(arr_get_code(), w, started(mem), 4);
            &&& m is On
            &&& m->On_0 == (Running {
                pc: if 0 <= idx < mem[arr] {
                    9
                } else {
                    4
                },
                regs: m->On_0.regs,
                before: mark(Mark::Entry),
                ..started(mem)->On_0
            })
            &&& m->On_0.regs[1] == mem[arr]
        }),
{
    lemma_arr_get_code();
    lemma_get_places();
    reveal_with_fuel(ticks, 5);
}

proof fn lemma_get_load(w: World, r: Running, arr: int, idx: int)
    requires
        w.args == seq![arr, idx],
        r.pc == 9,
    ensures
        ({
            let m = ticks(arr_get_code(), w, Machine::On(r), 9);
            &&& m is On
            &&& m->On_0 == (Running {
                pc: if r.mem[arr - 16] == 2 {
                    18
                } else {
                    23
                },
                regs: m->On_0.regs,
                here: mark(Mark::Load),
                before: mark(Mark::Load),
                ..r
            })
            &&& m->On_0.regs[13] == r.mem[r.mem[arr + 16] + 8 * idx]
        }),
{
    lemma_arr_get_code();
    lemma_get_places();
    reveal_with_fuel(ticks, 10);
}

proof fn lemma_get_end(w: World, r: Running, kind: int, word: int)
    requires
        r.pc == (if kind == 2 {
            18int
        } else {
            23
        }),
        r.regs[13] == word,
        r.passed == Seq::<int>::empty(),
        r.log == Seq::<Event>::empty(),
    ensures
        ends(
            arr_get_code(),
            w,
            Machine::On(r),
            Final {
                mem: r.mem,
                log: elem_retain(kind, word),
                result: Some(word),
                trapped: false,
            },
        ),
{
    lemma_arr_get_code();
    let code = arr_get_code();
    lemma_get_places();
    assert(Seq::<int>::empty().push(word) =~= seq![word]);
    assert(seq![calls_rt(Rt::Retain, seq![word])] =~= Seq::<Event>::empty().push(
        calls_rt(Rt::Retain, seq![word]),
    ));
    let f = Final {
        mem: r.mem,
        log: elem_retain(kind, word),
        result: Some(word),
        trapped: false,
    };
    reveal_with_fuel(ticks, 8);
    if kind == 2 {
        assert(ticks(code, w, Machine::On(r), 7) == Machine::Done(f));
    } else {
        assert(ticks(code, w, Machine::On(r), 2) == Machine::Done(f));
    }
}

/// `xia_arr_set` stores a word within the bounds; a heap element is retained
/// before the old one is released. Outside the bounds it fails.
pub proof fn law_arr_set_is_checked(w: World, mem: Map<int, int>, arr: int, idx: int, word: int)
    requires
        w.args == seq![arr, idx, word],
        0 <= mem[arr] <= i64::MAX,
        i64::MIN <= idx <= i64::MAX,
    ensures
        ({
            let slot = mem[arr + 16] + 8 * idx;
            comes_to(
                arr_set_code(),
                w,
                mem,
                if 0 <= idx < mem[arr] {
                    Final {
                        mem: mem.insert(slot, word),
                        log: if mem[arr - 16] == 2 {
                            seq![
                                calls_rt(Rt::Retain, seq![word]),
                                calls_rt(Rt::Release, seq![mem[slot]]),
                            ]
                        } else {
                            Seq::empty()
                        },
                        result: None,
                        trapped: false,
                    }
                } else {
                    out_of_bounds(mem, idx, mem[arr])
                },
            )
        }),
{
    lemma_arr_set_code();
    let code = arr_set_code();
    let m = started(mem);
    let slot = mem[arr + 16] + 8 * idx;
    lemma_set_places();
    lemma_set_check(w, mem, arr, idx, word);
    let m1 = ticks(code, w, m, 4);
    let r1 = m1->On_0;
    if 0 <= idx < mem[arr] {
        lemma_set_slot(w, r1, arr, idx, word);
        let m2 = ticks(code, w, m1, 8);
        let r2 = m2->On_0;
        let f = Final {
            mem: mem.insert(slot, word),
            log: if mem[arr - 16] == 2 {
                seq![calls_rt(Rt::Retain, seq![word]), calls_rt(Rt::Release, seq![mem[slot]])]
            } else {
                Seq::empty()
            },
            result: None,
            trapped: false,
        };
        if mem[arr - 16] == 2 {
            lemma_set_swap(w, r2, arr, idx, word, slot);
            let m3 = ticks(code, w, m2, 9);
            let r3 = m3->On_0;
            assert(f.log =~= r3.log);
            lemma_set_write(w, r3, arr, idx, word, slot);
            lemma_later(code, w, m2, 9, f);
        } else {
            lemma_set_write(w, r2, arr, idx, word, slot);
        }
        lemma_later(code, w, m1, 8, f);
        lemma_later(code, w, m, 4, f);
    } else {
        let f = out_of_bounds(mem, idx, mem[arr]);
        let args = seq![idx, mem[arr]];
        assert(Seq::<int>::empty().push(idx).push(mem[arr]) =~= args);
        assert(f.log =~= Seq::<Event>::empty().push(calls_rt(Rt::BoundsFail, args)));
        reveal_with_fuel(ticks, 6);
        assert(ticks(code, w, m1, 5) == Machine::Done(f));
        lemma_later(code, w, m, 4, f);
    }
}

proof fn lemma_set_places()
    ensures
        place(arr_set_code(), mark(Mark::Trap)) == 4,
        place(arr_set_code(), mark(Mark::Check)) == 9,
        place(arr_set_code(), mark(Mark::Swap)) == 17,
        place(arr_set_code(), mark(Mark::Write)) == 26,
{
    lemma_arr_set_code();
    let code = arr_set_code();
    lemma_place(code, mark(Mark::Trap), 4);
    lemma_place(code, mark(Mark::Check), 9);
    lemma_place(code, mark(Mark::Swap), 17);
    lemma_place(code, mark(Mark::Write), 26);
}

proof fn lemma_set_check(w: World, mem: Map<int, int>, arr: int, idx: int, word: int)
    requires
        w.args == seq![arr, idx, word],
        0 <= mem[arr] <= i64::MAX,
        i64::MIN <= idx <= i64::MAX,
    ensures
        ({
            let m = ticks(arr_set_code(), w, started(mem), 4);
            &&& m is On
            &&& m->On_0 == (Running {
                pc: if 0 <= idx < mem[arr] {
                    9
                } else {
                    4
                },
                regs: m->On_0.regs,
                before: mark(Mark::Entry),
                ..started(mem)->On_0
            })
            &&& m->On_0.regs[1] == mem[arr]
        }),
{
    lemma_arr_set_code();
    lemma_set_places();
    reveal_with_fuel(ticks, 5);
}

proof fn lemma_set_slot(w: World, r: Running, arr: int, idx: int, word: int)
    requires
        w.args == seq![arr, idx, word],
        r.pc == 9,
    ensures
        ({
            let m = ticks(arr_set_code(), w, Machine::On(r), 8);
            &&& m is On
            &&& m->On_0 == (Running {
                pc: if r.mem[arr - 16] == 2 {
                    17
                } else {
                    26
                },
                regs: m->On_0.regs,
                here: mark(Mark::Check),
                before: mark(Mark::Check),
                ..r
            })
            &&& m->On_0.regs[12] == r.mem[arr + 16] + 8 * idx
        }),
{
    lemma_arr_set_code();
    lemma_set_places();
    reveal_with_fuel(ticks, 9);
}

proof fn lemma_set_swap(w: World, r: Running, arr: int, idx: int, word: int, slot: int)
    requires
        w.args == seq![arr, idx, word],
        r.pc == 17,
        r.regs[12] == slot,
        r.passed == Seq::<int>::empty(),
    ensures
        ({
            let m = ticks(arr_set_code(), w, Machine::On(r), 9);
            &&& m is On
            &&& m->On_0 == (Running {
                pc: 26,
                regs: m->On_0.regs,
                log: r.log.push(calls_rt(Rt::Retain, seq![word])).push(
                    calls_rt(Rt::Release, seq![r.mem[slot]]),
                ),
                here: mark(Mark::Swap),
                before: mark(Mark::Swap),
                ..r
            })
            &&& m->On_0.regs[12] == slot
        }),
{
    lemma_arr_set_code();
    lemma_set_places();
    let was = r.mem[slot];
    assert(Seq::<int>::empty().push(word) =~= seq![word]);
    assert(Seq::<int>::empty().push(was) =~= seq![was]);
    reveal_with_fuel(ticks, 10);
}

proof fn lemma_set_write(w: World, r: Running, arr: int, idx: int, word: int, slot: int)
    requires
        w.args == seq![arr, idx, word],
        r.pc == 26,
        r.regs[12] == slot,
    ensures
        ends(
            arr_set_code(),
            w,
            Machine::On(r),
            Final {
                mem: r.mem.insert(slot, word),
                log: r.log,
                result: None,
                trapped: false,
            },
        ),
{
    lemma_arr_set_code();
    reveal_with_fuel(ticks, 4);
    let f = Final { mem: r.mem.insert(slot, word), log: r.log, result: None, trapped: false };
    assert(ticks(arr_set_code(), w, Machine::On(r), 3) == Machine::Done(f));
}

/// Memory once an array's buffer has grown to twice its room.
pub open spec fn grown(mem: Map<int, int>, arr: int, data: int) -> Map<int, int> {
    copied(mem, data, mem[arr + 16], 8 * mem[arr]).insert(arr + 16, data).insert(
        arr + 8,
        2 * mem[arr + 8],
    )
}

/// Memory once a word stands behind the last one of an array.
pub open spec fn appended(mem: Map<int, int>, arr: int, word: int) -> Map<int, int> {
    mem.insert(mem[arr + 16] + 8 * mem[arr], word).insert(arr, mem[arr] + 1)
}

/// `xia_arr_push` appends a word and retains a heap element. A full buffer is
/// first replaced by one of twice the room, to which the words are copied.
pub proof fn law_arr_push_appends(w: World, mem: Map<int, int>, arr: int, word: int)
    requires
        w.args == seq![arr, word],
        0 <= mem[arr] <= mem[arr + 8] <= 0x00ff_ffff_ffff_ffff,
        // A fresh buffer does not overlap the array's own block.
        ({
            let data = (w.returns)(0);
            data + 16 * mem[arr + 8] <= arr - 16 || arr + 24 <= data
        }),
    ensures
        ({
            let full = mem[arr] == mem[arr + 8];
            let data = (w.returns)(0);
            let ready = if full {
                grown(mem, arr, data)
            } else {
                mem
            };
            let moves = if full {
                seq![
                    calls_c(Libc::Malloc, seq![16 * mem[arr + 8]]),
                    calls_c(Libc::Free, seq![mem[arr + 16]]),
                ]
            } else {
                Seq::empty()
            };
            comes_to(
                arr_push_code(),
                w,
                mem,
                Final {
                    mem: appended(ready, arr, word),
                    log: moves + elem_retain(mem[arr - 16], word),
                    result: None,
                    trapped: false,
                },
            )
        }),
{
    let code = arr_push_code();
    let m = started(mem);
    let full = mem[arr] == mem[arr + 8];
    let data = (w.returns)(0);
    let ready = if full {
        grown(mem, arr, data)
    } else {
        mem
    };
    let malloc = calls_c(Libc::Malloc, seq![16 * mem[arr + 8]]);
    let free = calls_c(Libc::Free, seq![mem[arr + 16]]);
    let moves = if full {
        seq![malloc, free]
    } else {
        Seq::empty()
    };
    let f = Final {
        mem: appended(ready, arr, word),
        log: moves + elem_retain(mem[arr - 16], word),
        result: None,
        trapped: false,
    };
    lemma_push_room(w, mem, arr, word);
    let m1 = ticks(code, w, m, 6);
    let r1 = m1->On_0;
    if full {
        lemma_push_grow(w, r1, mem, arr, word);
        let m2 = ticks(code, w, m1, 8);
        lemma_push_move(w, m2->On_0, mem, arr, word);
        let m3 = ticks(code, w, m2, 6);
        let r3 = m3->On_0;
        assert(moves =~= r3.log);
        assert(ready[arr - 16] == mem[arr - 16]);
        assert(ready[arr] == mem[arr]);
        lemma_push_kind(w, r3, ready, arr, word);
        lemma_later(code, w, m2, 6, f);
        lemma_later(code, w, m1, 8, f);
    } else {
        lemma_push_kind(w, r1, mem, arr, word);
    }
    lemma_later(code, w, m, 6, f);
}

proof fn lemma_push_places()
    ensures
        place(arr_push_code(), mark(Mark::Grow)) == 6,
        place(arr_push_code(), mark(Mark::Store)) == 20,
        place(arr_push_code(), mark(Mark::Retain)) == 25,
        place(arr_push_code(), mark(Mark::Write)) == 30,
{
    lemma_arr_push_code();
    let code = arr_push_code();
    lemma_place(code, mark(Mark::Grow), 6);
    lemma_place(code, mark(Mark::Store), 20);
    lemma_place(code, mark(Mark::Retain), 25);
    lemma_place(code, mark(Mark::Write), 30);
}

/// Whether there is room.
proof fn lemma_push_room(w: World, mem: Map<int, int>, arr: int, word: int)
    requires
        w.args == seq![arr, word],
    ensures
        ({
            let m = ticks(arr_push_code(), w, started(mem), 6);
            &&& m is On
            &&& m->On_0 == (Running {
                pc: if mem[arr] == mem[arr + 8] {
                    6
                } else {
                    20
                },
                regs: m->On_0.regs,
                before: mark(Mark::Entry),
                ..started(mem)->On_0
            })
            &&& m->On_0.regs[1] == mem[arr]
            &&& m->On_0.regs[2] == arr + 8
            &&& m->On_0.regs[3] == mem[arr + 8]
        }),
{
    lemma_arr_push_code();
    lemma_push_places();
    reveal_with_fuel(ticks, 7);
}

/// A new buffer of twice the room.
proof fn lemma_push_grow(w: World, r: Running, mem: Map<int, int>, arr: int, word: int)
    requires
        w.args == seq![arr, word],
        r.pc == 6,
        r.mem == mem,
        r.regs[1] == mem[arr],
        r.regs[2] == arr + 8,
        r.regs[3] == mem[arr + 8],
        0 <= mem[arr] <= mem[arr + 8] <= 0x00ff_ffff_ffff_ffff,
        r.passed == Seq::<int>::empty(),
        r.log == Seq::<Event>::empty(),
    ensures
        ({
            let m = ticks(arr_push_code(), w, Machine::On(r), 8);
            let malloc = calls_c(Libc::Malloc, seq![16 * mem[arr + 8]]);
            &&& m is On
            &&& m->On_0 == (Running {
                pc: 14,
                regs: m->On_0.regs,
                log: seq![malloc],
                here: mark(Mark::Grow),
                ..r
            })
            &&& m->On_0.regs[1] == mem[arr]
            &&& m->On_0.regs[2] == arr + 8
            &&& m->On_0.regs[7] == 2 * mem[arr + 8]
            &&& m->On_0.regs[10] == (w.returns)(0)
            &&& m->On_0.regs[11] == arr + 16
            &&& m->On_0.regs[12] == mem[arr + 16]
            &&& m->On_0.regs[13] == 8 * mem[arr]
        }),
{
    lemma_arr_push_code();
    lemma_push_places();
    let cap = mem[arr + 8];
    let n = 16 * cap;
    lemma_times(cap, 2, 2 * cap);
    lemma_times(2 * cap, 8, n);
    lemma_times(mem[arr], 8, 8 * mem[arr]);
    assert(Seq::<int>::empty().push(n) =~= seq![n]);
    let malloc = calls_c(Libc::Malloc, seq![n]);
    assert(seq![malloc] =~= Seq::<Event>::empty().push(malloc));
    reveal_with_fuel(ticks, 9);
}

/// The words move, and the old buffer goes.
proof fn lemma_push_move(w: World, r: Running, mem: Map<int, int>, arr: int, word: int)
    requires
        w.args == seq![arr, word],
        r.pc == 14,
        r.mem == mem,
        r.regs[1] == mem[arr],
        r.regs[2] == arr + 8,
        r.regs[7] == 2 * mem[arr + 8],
        r.regs[10] == (w.returns)(0),
        r.regs[11] == arr + 16,
        r.regs[12] == mem[arr + 16],
        r.regs[13] == 8 * mem[arr],
        r.passed == Seq::<int>::empty(),
    ensures
        ({
            let m = ticks(arr_push_code(), w, Machine::On(r), 6);
            &&& m is On
            &&& m->On_0 == (Running {
                pc: 20,
                regs: m->On_0.regs,
                mem: grown(mem, arr, (w.returns)(0)),
                log: r.log.push(calls_c(Libc::Free, seq![mem[arr + 16]])),
                before: r.here,
                ..r
            })
            &&& m->On_0.regs[1] == mem[arr]
        }),
{
    lemma_arr_push_code();
    lemma_push_places();
    let was = mem[arr + 16];
    assert(Seq::<int>::empty().push(was) =~= seq![was]);
    reveal_with_fuel(ticks, 7);
}

/// Where there is room: a heap element is retained, and the word is written.
proof fn lemma_push_kind(w: World, r: Running, mem: Map<int, int>, arr: int, word: int)
    requires
        w.args == seq![arr, word],
        r.pc == 20,
        r.mem == mem,
        r.regs[1] == mem[arr],
        0 <= mem[arr] < i64::MAX,
        r.passed == Seq::<int>::empty(),
    ensures
        ends(
            arr_push_code(),
            w,
            Machine::On(r),
            Final {
                mem: appended(mem, arr, word),
                log: r.log + elem_retain(mem[arr - 16], word),
                result: None,
                trapped: false,
            },
        ),
{
    lemma_arr_push_code();
    let code = arr_push_code();
    lemma_push_places();
    let heap = mem[arr - 16] == 2;
    let k: nat = if heap {
        10
    } else {
        5
    };
    assert(Seq::<int>::empty().push(word) =~= seq![word]);
    let up = calls_rt(Rt::Retain, seq![word]);
    let m = ticks(code, w, Machine::On(r), k);
    let r1 = m->On_0;
    assert(m is On && r1.pc == 30 && r1.mem == mem && r1.regs[1] == mem[arr]) by {
        reveal_with_fuel(ticks, 11);
    }
    assert(r1.log == (if heap {
        r.log.push(up)
    } else {
        r.log
    })) by {
        reveal_with_fuel(ticks, 11);
    }
    lemma_push_write(w, r1, arr, word);
    assert(r1.log =~= r.log + elem_retain(mem[arr - 16], word));
    lemma_later(
        code,
        w,
        Machine::On(r),
        k,
        Final {
            mem: appended(mem, arr, word),
            log: r1.log,
            result: None,
            trapped: false,
        },
    );
}

proof fn lemma_push_write(w: World, r: Running, arr: int, word: int)
    requires
        w.args == seq![arr, word],
        r.pc == 30,
        r.regs[1] == r.mem[arr],
        0 <= r.mem[arr] < i64::MAX,
    ensures
        ends(
            arr_push_code(),
            w,
            Machine::On(r),
            Final {
                mem: appended(r.mem, arr, word),
                log: r.log,
                result: None,
                trapped: false,
            },
        ),
{
    lemma_arr_push_code();
    assert(operate(Op::Add, r.mem[arr], 1) == r.mem[arr] + 1);
    reveal_with_fuel(ticks, 9);
    let f = Final {
        mem: appended(r.mem, arr, word),
        log: r.log,
        result: None,
        trapped: false,
    };
    assert(ticks(arr_push_code(), w, Machine::On(r), 8) == Machine::Done(f));
}

/// `xia_bounds_fail` prints a diagnostic and exits with code 1.
pub proof fn law_bounds_fail_exits(w: World, mem: Map<int, int>, idx: int, len: int)
    requires
        w.args == seq![idx, len],
    ensures
        comes_to(
            bounds_fail_code(),
            w,
            mem,
            Final {
                mem,
                log: seq![
                    calls_c(Libc::Printf, seq![(w.fixed)(Fixed::OutOfBounds), idx, len]),
                    calls_c(Libc::Exit, seq![1]),
                ],
                result: None,
                trapped: true,
            },
        ),
{
    reveal(bounds_fail_code);
    let code = bounds_fail_code();
    reveal_with_fuel(ticks, 9);
    let text = (w.fixed)(Fixed::OutOfBounds);
    assert(Seq::<int>::empty().push(text).push(idx).push(len) =~= seq![text, idx, len]);
    assert(Seq::<int>::empty().push(1) =~= seq![1]);
    let a = calls_c(Libc::Printf, seq![text, idx, len]);
    let b = calls_c(Libc::Exit, seq![1]);
    assert(seq![a, b] =~= Seq::<Event>::empty().push(a).push(b));
    let f = Final { mem, log: seq![a, b], result: None, trapped: true };
    assert(ticks(code, w, started(mem), 8) == Machine::Done(f));
}

/// Whether the word at position `idx` of an array lies outside the array's own
/// block.
pub open spec fn apart(mem: Map<int, int>, arr: int, idx: int) -> bool {
    let slot = mem[arr + 16] + 8 * idx;
    slot < arr - 16 || arr + 24 <= slot
}

/// What `xia_arr_set` stored is what `xia_arr_get` gives back, and the other
/// elements are as they were.
pub proof fn law_get_gives_back_set(
    w: World,
    reader: World,
    mem: Map<int, int>,
    arr: int,
    idx: int,
    word: int,
    other: int,
)
    requires
        w.args == seq![arr, idx, word],
        reader.args == seq![arr, other],
        0 <= idx < mem[arr] <= i64::MAX,
        0 <= other < mem[arr],
        apart(mem, arr, idx),
    ensures
        ({
            let after = mem.insert(mem[arr + 16] + 8 * idx, word);
            let found = if other == idx {
                word
            } else {
                mem[mem[arr + 16] + 8 * other]
            };
            &&& exists|f: Final| #[trigger] comes_to(arr_set_code(), w, mem, f) && f.mem == after
            &&& comes_to(
                arr_get_code(),
                reader,
                after,
                Final {
                    mem: after,
                    log: elem_retain(mem[arr - 16], found),
                    result: Some(found),
                    trapped: false,
                },
            )
        }),
{
    law_arr_set_is_checked(w, mem, arr, idx, word);
    let after = mem.insert(mem[arr + 16] + 8 * idx, word);
    law_arr_get_is_checked(reader, after, arr, other);
}

/// What `xia_arr_push` appended is what `xia_arr_get` gives back at the old
/// length.
pub proof fn law_get_gives_back_push(
    w: World,
    reader: World,
    mem: Map<int, int>,
    arr: int,
    word: int,
)
    requires
        w.args == seq![arr, word],
        reader.args == seq![arr, mem[arr]],
        0 <= mem[arr] <= mem[arr + 8] <= 0x00ff_ffff_ffff_ffff,
        0 < mem[arr + 8],
        ({
            let data = (w.returns)(0);
            data + 16 * mem[arr + 8] <= arr - 16 || arr + 24 <= data
        }),
        mem[arr] < mem[arr + 8] ==> apart(mem, arr, mem[arr]),
    ensures
        exists|f: Final|
            {
                &&& #[trigger] comes_to(arr_push_code(), w, mem, f)
                &&& comes_to(
                    arr_get_code(),
                    reader,
                    f.mem,
                    Final {
                        mem: f.mem,
                        log: elem_retain(mem[arr - 16], word),
                        result: Some(word),
                        trapped: false,
                    },
                )
            },
{
    law_arr_push_appends(w, mem, arr, word);
    let full = mem[arr] == mem[arr + 8];
    let data = (w.returns)(0);
    let ready = if full {
        grown(mem, arr, data)
    } else {
        mem
    };
    let after = appended(ready, arr, word);
    assert(ready[arr] == mem[arr] && ready[arr - 16] == mem[arr - 16]);
    assert(apart(ready, arr, mem[arr]));
    assert(after[arr] == mem[arr] + 1);
    assert(after[arr + 16] == ready[arr + 16]);
    assert(after[after[arr + 16] + 8 * mem[arr]] == word);
    law_arr_get_is_checked(reader, after, arr, mem[arr]);
}

// ----- strings ----------------------------------------------------------------------------------
/// Memory with the bytes of two texts and a NUL at `to`.
pub open spec fn both_texts(
    mem: Map<int, int>,
    to: int,
    a: int,
    la: int,
    b: int,
    lb: int,
) -> Map<int, int> {
    copied(copied(mem, to, a, la), to + la, b, lb).insert(to + la + lb, 0)
}

/// `xia_str_concat` makes a string with room for both texts and puts them
/// there, one behind the other, with a NUL at the end.
pub proof fn law_str_concat_joins(w: World, mem: Map<int, int>, a: int, b: int)
    requires
        w.args == seq![a, b],
        0 <= (w.returns)(0),
        0 <= (w.returns)(1),
        (w.returns)(0) + (w.returns)(1) <= i64::MAX,
    ensures
        ({
            let la = (w.returns)(0);
            let lb = (w.returns)(1);
            let to = (w.returns)(2);
            comes_to(
                str_concat_code(),
                w,
                mem,
                Final {
                    mem: both_texts(mem, to, a, la, b, lb),
                    log: seq![
                        calls_c(Libc::Strlen, seq![a]),
                        calls_c(Libc::Strlen, seq![b]),
                        calls_rt(Rt::AllocStr, seq![la + lb]),
                    ],
                    result: Some(to),
                    trapped: false,
                },
            )
        }),
{
    let code = str_concat_code();
    let la = (w.returns)(0);
    let lb = (w.returns)(1);
    let to = (w.returns)(2);
    let m = started(mem);
    let e0 = calls_c(Libc::Strlen, seq![a]);
    let e1 = calls_c(Libc::Strlen, seq![b]);
    let e2 = calls_rt(Rt::AllocStr, seq![la + lb]);
    let m1 = ticks(code, w, m, 5);
    let r1 = m1->On_0;
    assert(m1 is On && r1 == (Running { pc: 5, regs: r1.regs, log: seq![e0, e1], ..m->On_0 })
        && r1.regs[2] == la && r1.regs[4] == lb) by {
        reveal(str_concat_code);
        assert(Seq::<int>::empty().push(a) =~= seq![a]);
        assert(Seq::<int>::empty().push(b) =~= seq![b]);
        assert(seq![e0, e1] =~= Seq::<Event>::empty().push(e0).push(e1));
        reveal_with_fuel(ticks, 6);
    }
    let m2 = ticks(code, w, m1, 3);
    let r2 = m2->On_0;
    assert(m2 is On && r2 == (Running { pc: 8, regs: r2.regs, log: seq![e0, e1, e2], ..r1 })
        && r2.regs[2] == la && r2.regs[4] == lb && r2.regs[7] == to) by {
        reveal(str_concat_code);
        assert(Seq::<int>::empty().push(la + lb) =~= seq![la + lb]);
        assert(seq![e0, e1, e2] =~= seq![e0, e1].push(e2));
        reveal_with_fuel(ticks, 4);
    }
    let f = Final {
        mem: both_texts(mem, to, a, la, b, lb),
        log: seq![e0, e1, e2],
        result: Some(to),
        trapped: false,
    };
    assert(ticks(code, w, m2, 6) == Machine::Done(f)) by {
        reveal(str_concat_code);
        reveal_with_fuel(ticks, 7);
    }
    lemma_later(code, w, m1, 3, f);
    lemma_later(code, w, m, 5, f);
}

/// A concatenation holds the first text, then the second, then a NUL, where
/// its bytes are apart from those of the second text.
pub proof fn law_concatenation_holds_both(
    mem: Map<int, int>,
    to: int,
    a: int,
    la: int,
    b: int,
    lb: int,
)
    requires
        0 <= la,
        0 <= lb,
        to + la + lb < b || b + lb <= to,
    ensures
        ({
            let after = both_texts(mem, to, a, la, b, lb);
            &&& forall|i: int| 0 <= i < la ==> #[trigger] after[to + i] == mem[a + i]
            &&& forall|i: int| 0 <= i < lb ==> #[trigger] after[to + (la + i)] == mem[b + i]
            &&& after[to + la + lb] == 0
            &&& forall|at: int|
                at < to || at > to + la + lb ==> #[trigger] after[at] == mem[at]
        }),
{
    let first = copied(mem, to, a, la);
    let after = both_texts(mem, to, a, la, b, lb);
    assert forall|i: int| 0 <= i < la implies #[trigger] after[to + i] == mem[a + i] by {
        assert(after[to + i] == first[to + i]);
    }
    assert forall|i: int| 0 <= i < lb implies #[trigger] after[to + (la + i)] == mem[b + i] by {
        assert(after[to + (la + i)] == first[b + i]);
    }
}

/// `xia_str_dup` copies a foreign text with its NUL into a string of its own;
/// null stays null.
pub proof fn law_str_dup_copies(w: World, mem: Map<int, int>, p: int)
    requires
        w.args == seq![p],
        0 <= (w.returns)(0) < i64::MAX,
    ensures
        ({
            let n = (w.returns)(0);
            let to = (w.returns)(1);
            comes_to(
                str_dup_code(),
                w,
                mem,
                if p == 0 {
                    Final { mem, log: Seq::empty(), result: Some(0), trapped: false }
                } else {
                    Final {
                        mem: copied(mem, to, p, n + 1),
                        log: seq![
                            calls_c(Libc::Strlen, seq![p]),
                            calls_rt(Rt::AllocStr, seq![n]),
                        ],
                        result: Some(to),
                        trapped: false,
                    }
                },
            )
        }),
{
    reveal(str_dup_code);
    let code = str_dup_code();
    let n = (w.returns)(0);
    let to = (w.returns)(1);
    let m = started(mem);
    lemma_place(code, mark(Mark::Null), 3);
    lemma_place(code, mark(Mark::Copy), 5);
    let m1 = ticks(code, w, m, 3);
    let r1 = m1->On_0;
    assert(m1 is On && r1 == (Running {
        pc: if p == 0 {
            3
        } else {
            5
        },
        regs: r1.regs,
        before: r1.before,
        ..m->On_0
    })) by {
        reveal_with_fuel(ticks, 4);
    }
    let e0 = calls_c(Libc::Strlen, seq![p]);
    let e1 = calls_rt(Rt::AllocStr, seq![n]);
    if p == 0 {
        let f = Final { mem, log: Seq::empty(), result: Some(0), trapped: false };
        assert(ticks(code, w, m1, 2) == Machine::Done(f)) by {
            reveal_with_fuel(ticks, 3);
        }
        lemma_later(code, w, m, 3, f);
    } else {
        let f = Final {
            mem: copied(mem, to, p, n + 1),
            log: seq![e0, e1],
            result: Some(to),
            trapped: false,
        };
        assert(ticks(code, w, m1, 8) == Machine::Done(f)) by {
            assert(Seq::<int>::empty().push(p) =~= seq![p]);
            assert(Seq::<int>::empty().push(n) =~= seq![n]);
            assert(seq![e0, e1] =~= Seq::<Event>::empty().push(e0).push(e1));
            reveal_with_fuel(ticks, 9);
        }
        lemma_later(code, w, m, 3, f);
    }
}

/// `xia_str_eq` says whether the C library's comparison of the two texts finds
/// no difference.
pub proof fn law_str_eq_compares(w: World, mem: Map<int, int>, a: int, b: int)
    requires
        w.args == seq![a, b],
    ensures
        comes_to(
            str_eq_code(),
            w,
            mem,
            Final {
                mem,
                log: seq![calls_c(Libc::Compare, seq![a, b])],
                result: Some(
                    if (w.returns)(0) == 0 {
                        1
                    } else {
                        0
                    },
                ),
                trapped: false,
            },
        ),
{
    reveal(str_eq_code);
    let code = str_eq_code();
    let e = calls_c(Libc::Compare, seq![a, b]);
    let f = Final {
        mem,
        log: seq![e],
        result: Some(
            if (w.returns)(0) == 0 {
                1
            } else {
                0
            },
        ),
        trapped: false,
    };
    assert(Seq::<int>::empty().push(a).push(b) =~= seq![a, b]);
    assert(seq![e] =~= Seq::<Event>::empty().push(e));
    reveal_with_fuel(ticks, 7);
    assert(ticks(code, w, started(mem), 6) == Machine::Done(f));
}

/// The calls that turn a number into a string: measure, allocate, format.
pub open spec fn number_calls(format: int, v: int, n: int, to: int) -> Seq<Event> {
    seq![
        calls_c(Libc::Snprintf, seq![0, 0, format, v]),
        calls_rt(Rt::AllocStr, seq![n]),
        calls_c(Libc::Snprintf, seq![to, n + 1, format, v]),
    ]
}

/// `xia_int_to_str` and `xia_float_to_str` measure the number's text, make a
/// string with just that room and format the number into it.
pub proof fn law_numbers_fit_their_strings(w: World, mem: Map<int, int>, v: int)
    requires
        w.args == seq![v],
        0 <= (w.returns)(0) < i64::MAX,
    ensures
        ({
            let n = (w.returns)(0);
            let to = (w.returns)(1);
            &&& comes_to(
                int_to_str_code(),
                w,
                mem,
                Final {
                    mem,
                    log: number_calls((w.fixed)(Fixed::IntFormat), v, n, to),
                    result: Some(to),
                    trapped: false,
                },
            )
            &&& comes_to(
                float_to_str_code(),
                w,
                mem,
                Final {
                    mem,
                    log: number_calls((w.fixed)(Fixed::FloatFormat), v, n, to),
                    result: Some(to),
                    trapped: false,
                },
            )
        }),
{
    let ints = int_to_str_code();
    let floats = float_to_str_code();
    assert(formats(ints, Fixed::IntFormat, Ty::I64)) by {
        reveal(int_to_str_code);
    }
    assert(formats(floats, Fixed::FloatFormat, Ty::F64)) by {
        reveal(float_to_str_code);
    }
    lemma_formats(ints, Fixed::IntFormat, Ty::I64, w, mem, v);
    lemma_formats(floats, Fixed::FloatFormat, Ty::F64, w, mem, v);
}

/// The instructions that turn a number into a string by a format.
spec fn formats(code: Seq<Ins>, format: Fixed, ty: Ty) -> bool {
    &&& code.len() == 16
    &&& code[0] == Ins::Label(mark(Mark::Entry))
    &&& code[1] == Ins::Arg(Ty::Ptr, Val::Null)
    &&& code[2] == Ins::Arg(Ty::I64, Val::Int(0))
    &&& code[3] == Ins::Arg(Ty::Ptr, Val::Fixed(format))
    &&& code[4] == Ins::Arg(ty, Val::Param(0))
    &&& code[5] == Ins::Call(Ty::I32, Callee::C(Libc::Snprintf), 4)
    &&& code[6] == Ins::Convert(Conv::Sext32, Val::Reg(5))
    &&& code[7] == Ins::Arg(Ty::I64, Val::Reg(6))
    &&& code[8] == Ins::Call(Ty::Ptr, Callee::Runtime(Rt::AllocStr), 1)
    &&& code[9] == Ins::Bin(Op::Add, Ty::I64, Val::Reg(6), Val::Int(1))
    &&& code[10] == Ins::Arg(Ty::Ptr, Val::Reg(8))
    &&& code[11] == Ins::Arg(Ty::I64, Val::Reg(9))
    &&& code[12] == Ins::Arg(Ty::Ptr, Val::Fixed(format))
    &&& code[13] == Ins::Arg(ty, Val::Param(0))
    &&& code[14] == Ins::Call(Ty::I32, Callee::C(Libc::Snprintf), 4)
    &&& code[15] == Ins::Ret(Ty::Ptr, Val::Reg(8))
}

proof fn lemma_formats(
    code: Seq<Ins>,
    format: Fixed,
    ty: Ty,
    w: World,
    mem: Map<int, int>,
    v: int,
)
    requires
        formats(code, format, ty),
        w.args == seq![v],
        0 <= (w.returns)(0) < i64::MAX,
    ensures
        comes_to(
            code,
            w,
            mem,
            Final {
                mem,
                log: number_calls((w.fixed)(format), v, (w.returns)(0), (w.returns)(1)),
                result: Some((w.returns)(1)),
                trapped: false,
            },
        ),
{
    let n = (w.returns)(0);
    let to = (w.returns)(1);
    let text = (w.fixed)(format);
    let m = started(mem);
    let log = number_calls(text, v, n, to);
    let m1 = ticks(code, w, m, 6);
    let r1 = m1->On_0;
    assert(m1 is On && r1 == (Running { pc: 6, regs: r1.regs, log: log.take(1), ..m->On_0 })
        && r1.regs[5] == n) by {
        assert(Seq::<int>::empty().push(0).push(0).push(text).push(v) =~= seq![0, 0, text, v]);
        assert(log.take(1) =~= Seq::<Event>::empty().push(log[0]));
        reveal_with_fuel(ticks, 7);
    }
    let m2 = ticks(code, w, m1, 3);
    let r2 = m2->On_0;
    assert(m2 is On && r2 == (Running { pc: 9, regs: r2.regs, log: log.take(2), ..r1 })
        && r2.regs[6] == n && r2.regs[8] == to) by {
        assert(Seq::<int>::empty().push(n) =~= seq![n]);
        assert(log.take(2) =~= log.take(1).push(log[1]));
        reveal_with_fuel(ticks, 4);
    }
    let f = Final { mem, log, result: Some(to), trapped: false };
    assert(ticks(code, w, m2, 7) == Machine::Done(f)) by {
        assert(Seq::<int>::empty().push(to).push(n + 1).push(text).push(v) =~= seq![
            to,
            n + 1,
            text,
            v,
        ]);
        assert(log =~= log.take(2).push(log[2]));
        reveal_with_fuel(ticks, 8);
    }
    lemma_later(code, w, m1, 3, f);
    lemma_later(code, w, m, 6, f);
}

} // verus!
