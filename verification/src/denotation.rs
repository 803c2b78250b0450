//! What LLVM makes of the text of a module.
//!
//! The meaning of LLVM's instructions is stated here by the words they are
//! written with, apart from how modules are printed: what a line of text does,
//! given what its operands stand for. The laws say that the text of each
//! instruction does what the instruction does when it runs.
use vstd::prelude::*;
use crate::ir::{Callee, Conv, Ins, Label, Libc, Op, Pred, Ty, Val};
use crate::lowering::ModuleV;
use crate::machine::{copied, divided, tick, value, Floats, Machine, Running, World};
use crate::printing::{
    args_text, callee_text, conv_from, conv_to, formals_text, ins_text, label_text, libc_name,
    libc_params, libc_ret, op_text, pred_text, sig_text, ty_text, val_text,
};
use crate::text::dec;

verus! {

// ----- words and what they mean ------------------------------------------------------------------
/// What an operand stands for.
pub type Names = spec_fn(Seq<char>) -> int;

/// Whether `x` is the 64-bit integer that `n` comes to where overflow is cut off.
pub open spec fn comes_out(x: int, n: int) -> bool {
    i64::MIN <= x <= i64::MAX && (n - x) % 0x1_0000_0000_0000_0000 == 0
}

/// A 64-bit integer without its sign.
pub open spec fn natural(n: int) -> int {
    if n < 0 {
        n + 0x1_0000_0000_0000_0000
    } else {
        n
    }
}

/// Whether the LLVM instruction of that name gives `x` for two operands.
pub open spec fn calculates(f: Floats, word: Seq<char>, a: int, b: int, x: int) -> bool {
    ||| word == "add"@ && comes_out(x, a + b)
    ||| word == "sub"@ && comes_out(x, a - b)
    ||| word == "mul"@ && comes_out(x, a * b)
    ||| word == "sdiv"@ && comes_out(x, divided(a, b))
    ||| word == "srem"@ && x == a - divided(a, b) * b
    ||| word == "xor"@ && x == ((a as i64) ^ (b as i64)) as int
    ||| word == "fadd"@ && x == (f.sum)(a, b)
    ||| word == "fsub"@ && x == (f.difference)(a, b)
    ||| word == "fmul"@ && x == (f.product)(a, b)
    ||| word == "fdiv"@ && x == (f.quotient)(a, b)
    ||| word == "frem"@ && x == (f.remainder)(a, b)
}

/// Whether the LLVM comparison of that name has the outcome `yes`.
pub open spec fn decides(f: Floats, word: Seq<char>, a: int, b: int, yes: bool) -> bool {
    ||| word == "icmp eq"@ && yes == (a == b)
    ||| word == "icmp ne"@ && yes == (a != b)
    ||| word == "icmp slt"@ && yes == (a < b)
    ||| word == "icmp sle"@ && yes == (a <= b)
    ||| word == "icmp sgt"@ && yes == (a > b)
    ||| word == "icmp sge"@ && yes == (a >= b)
    ||| word == "icmp ult"@ && yes == (natural(a) < natural(b))
    ||| word == "fcmp oeq"@ && yes == (f.equal)(a, b)
    ||| word == "fcmp one"@ && yes == (f.unequal)(a, b)
    ||| word == "fcmp olt"@ && yes == (f.less)(a, b)
    ||| word == "fcmp ole"@ && yes == (f.less_or_equal)(a, b)
    ||| word == "fcmp ogt"@ && yes == (f.greater)(a, b)
    ||| word == "fcmp oge"@ && yes == (f.greater_or_equal)(a, b)
}

/// A truth value as a number.
pub open spec fn bit(yes: bool) -> int {
    if yes {
        1
    } else {
        0
    }
}

// ----- lines and what they do --------------------------------------------------------------------
/// Whether a line gives the register numbered `i` the value `x`.
pub open spec fn gives(
    line: Seq<char>,
    names: Names,
    mem: Map<int, int>,
    f: Floats,
    i: nat,
    x: int,
) -> bool {
    let d = "  %t"@ + dec(i);
    ||| exists|word: Seq<char>, ty: Seq<char>, a: Seq<char>, b: Seq<char>|
        line == d + " = "@ + word + " "@ + ty + " "@ + a + ", "@ + b + "\n"@
            && #[trigger] two_operands(f, word, ty, names(a), names(b), x)
    ||| exists|a: Seq<char>|
        line == d + " = fneg double "@ + a + "\n"@ && x == (f.negative)(#[trigger] names(a))
    ||| exists|ty: Seq<char>, p: Seq<char>|
        line == d + " = load "@ + #[trigger] (ty + ", ptr "@) + p + "\n"@ && x
            == mem[#[trigger] names(p)]
    ||| exists|p: Seq<char>, n: Seq<char>|
        line == d + " = getelementptr i64, ptr "@ + p + ", i64 "@ + n + "\n"@ && x
            == #[trigger] names(p) + 8 * #[trigger] names(n)
    ||| exists|p: Seq<char>, n: Seq<char>|
        line == d + " = getelementptr i8, ptr "@ + p + ", i64 "@ + n + "\n"@ && x
            == #[trigger] names(p) + #[trigger] names(n)
    ||| exists|c: Seq<char>, ty: Seq<char>, a: Seq<char>, b: Seq<char>|
        line == d + " = select i1 "@ + c + ", "@ + ty + " "@ + a + ", "@ + ty + " "@ + b + "\n"@
            && #[trigger] chosen(ty, names(c), names(a), names(b)) == x
}

/// Whether an operation on two operands, of integers or of floats as its type
/// says, gives `x`.
pub open spec fn two_operands(
    f: Floats,
    word: Seq<char>,
    ty: Seq<char>,
    a: int,
    b: int,
    x: int,
) -> bool {
    calculates(f, word, a, b, x) || exists|yes: bool|
        x == bit(yes) && #[trigger] decides(f, word, a, b, yes)
}

pub open spec fn chosen(ty: Seq<char>, c: int, a: int, b: int) -> int {
    if c != 0 {
        a
    } else {
        b
    }
}

/// Whether a line turns memory into `after`.
pub open spec fn writes(
    line: Seq<char>,
    names: Names,
    mem: Map<int, int>,
    after: Map<int, int>,
) -> bool {
    ||| exists|ty: Seq<char>, v: Seq<char>, p: Seq<char>|
        line == "  store "@ + #[trigger] (ty + " "@) + v + ", ptr "@ + p + "\n"@ && after
            == mem.insert(#[trigger] names(p), #[trigger] names(v))
    ||| exists|al: Seq<char>, to: Seq<char>, from: Seq<char>, n: Seq<char>|
        line == "  call void @llvm.memcpy.p0.p0.i64(ptr align "@ + al + " "@ + to + ", ptr align "@
            + al + " "@ + from + ", i64 "@ + n + ", i1 false)\n"@ && after == #[trigger] moved(
            mem,
            al,
            names(to),
            names(from),
            names(n),
        )
}

pub open spec fn moved(mem: Map<int, int>, al: Seq<char>, to: int, from: int, n: int) -> Map<
    int,
    int,
> {
    copied(mem, to, from, n)
}

/// Whether a line sends control to the block of that name.
pub open spec fn leads(line: Seq<char>, names: Names, block: Seq<char>) -> bool {
    ||| line == "  br label %"@ + block + "\n"@
    ||| exists|c: Seq<char>, other: Seq<char>|
        line == "  br i1 "@ + c + ", label %"@ + block + ", label %"@ + other + "\n"@
            && #[trigger] taken(names(c), other)
    ||| exists|c: Seq<char>, other: Seq<char>|
        line == "  br i1 "@ + c + ", label %"@ + other + ", label %"@ + block + "\n"@
            && !#[trigger] taken(names(c), other)
}

/// Whether the first of two blocks is gone to.
pub open spec fn taken(c: int, other: Seq<char>) -> bool {
    c != 0
}

/// Whether a line ends the function with a result, or without one.
pub open spec fn answers(line: Seq<char>, names: Names, result: Option<int>) -> bool {
    ||| line == "  ret void\n"@ && result is None
    ||| exists|ty: Seq<char>, v: Seq<char>|
        line == "  ret "@ + #[trigger] (ty + " "@) + v + "\n"@ && result == Some(
            #[trigger] names(v),
        )
}

// ----- instructions ------------------------------------------------------------------------------
/// Whether an operand's text stands for what the operand is.
pub open spec fn stands(m: ModuleV, w: World, r: Running, names: Names, v: Val) -> bool {
    names(val_text(m, v)) == value(w, r, v)
}

/// Whether so do the operands of an instruction.
pub open spec fn operands_stand(m: ModuleV, w: World, r: Running, names: Names, i: Ins) -> bool {
    match i {
        Ins::CondBr(v, _, _) => stands(m, w, r, names, v),
        Ins::Ret(_, v) => stands(m, w, r, names, v),
        Ins::Store(_, a, b) => stands(m, w, r, names, a) && stands(m, w, r, names, b),
        Ins::Load(_, v) => stands(m, w, r, names, v),
        Ins::Bin(_, _, a, b) => stands(m, w, r, names, a) && stands(m, w, r, names, b),
        Ins::Cmp(_, _, a, b) => stands(m, w, r, names, a) && stands(m, w, r, names, b),
        Ins::FNeg(v) => stands(m, w, r, names, v),
        Ins::Select(a, _, b, c) => stands(m, w, r, names, a) && stands(m, w, r, names, b) && stands(
            m,
            w,
            r,
            names,
            c,
        ),
        Ins::Gep(_, a, b) => stands(m, w, r, names, a) && stands(m, w, r, names, b),
        Ins::Memcpy(a, b, c, _) => stands(m, w, r, names, a) && stands(m, w, r, names, b) && stands(
            m,
            w,
            r,
            names,
            c,
        ),
        _ => true,
    }
}

/// Results that are cut off to 64 bits come out.
pub proof fn lemma_wraps(n: int)
    ensures
        comes_out(crate::machine::wrap(n), n),
{
}

/// The text of an operation is the word whose meaning it has.
proof fn lemma_op(f: Floats, op: Op, a: int, b: int)
    ensures
        calculates(f, op_text(op), a, b, crate::machine::calculate(f, op, a, b)),
{
    lemma_wraps(a + b);
    lemma_wraps(a - b);
    lemma_wraps(a * b);
    lemma_wraps(divided(a, b));
}

/// So is the text of a comparison.
proof fn lemma_pred(f: Floats, pred: Pred, a: int, b: int)
    ensures
        decides(f, pred_text(pred), a, b, crate::machine::compares(f, pred, a, b)),
{
}

/// The line of an instruction with a result gives its register what the
/// instruction gives when it runs.
pub proof fn law_lines_give_what_runs(
    m: ModuleV,
    code: Seq<Ins>,
    w: World,
    r: Running,
    names: Names,
)
    requires
        0 <= r.pc < code.len(),
        operands_stand(m, w, r, names, code[r.pc]),
        code[r.pc] is Bin || code[r.pc] is Cmp || code[r.pc] is FNeg || code[r.pc] is Load
            || code[r.pc] is Select || (code[r.pc] matches Ins::Gep(t, _, _) && (t == Ty::I64 || t
            == Ty::I8)),
    ensures
        ({
            let after = tick(code, w, Machine::On(r));
            after is On && gives(
                ins_text(m, code, r.pc),
                names,
                r.mem,
                w.floats,
                r.pc as nat,
                after->On_0.regs[r.pc],
            )
        }),
{
    let line = ins_text(m, code, r.pc);
    let x = tick(code, w, Machine::On(r))->On_0.regs[r.pc];
    let f = w.floats;
    let d = "  %t"@ + dec(r.pc as nat);
    match code[r.pc] {
        Ins::Bin(op, t, a, b) => {
            lemma_op(f, op, value(w, r, a), value(w, r, b));
            let (x1, y1) = (names(val_text(m, a)), names(val_text(m, b)));
            assert(two_operands(f, op_text(op), ty_text(t), x1, y1, x));
        },
        Ins::Cmp(pred, t, a, b) => {
            let (x1, y1) = (names(val_text(m, a)), names(val_text(m, b)));
            lemma_pred(f, pred, x1, y1);
            let yes = crate::machine::compares(f, pred, x1, y1);
            assert(x == bit(yes));
            assert(decides(f, pred_text(pred), x1, y1, yes));
            assert(two_operands(f, pred_text(pred), ty_text(t), x1, y1, x));
        },
        Ins::FNeg(v) => {
            assert(x == (f.negative)(names(val_text(m, v))));
        },
        Ins::Load(t, p) => {
            assert(line =~= d + " = load "@ + (ty_text(t) + ", ptr "@) + val_text(m, p) + "\n"@);
            assert(x == r.mem[names(val_text(m, p))]);
        },
        Ins::Gep(t, p, n) => {
            reveal_strlit(" = getelementptr ");
            reveal_strlit(", ptr ");
            reveal_strlit(" = getelementptr i64, ptr ");
            reveal_strlit(" = getelementptr i8, ptr ");
            reveal_strlit("i64");
            reveal_strlit("i8");
            assert(" = getelementptr "@ + "i64"@ + ", ptr "@ =~= " = getelementptr i64, ptr "@);
            assert(" = getelementptr "@ + "i8"@ + ", ptr "@ =~= " = getelementptr i8, ptr "@);
            let pt = val_text(m, p);
            let nt = val_text(m, n);
            assert(line =~= d + (" = getelementptr "@ + ty_text(t) + ", ptr "@) + pt + ", i64 "@
                + nt
                + "\n"@);
            if t == Ty::I64 {
                assert(x == names(pt) + 8 * names(nt));
            } else {
                assert(x == names(pt) + names(nt));
            }
        },
        Ins::Select(c, t, a, b) => {
            assert(chosen(
                ty_text(t),
                names(val_text(m, c)),
                names(val_text(m, a)),
                names(val_text(m, b)),
            ) == x);
        },
        _ => {},
    }
}

/// The line of a store or a copy does to memory what the instruction does.
pub proof fn law_lines_write_what_runs(
    m: ModuleV,
    code: Seq<Ins>,
    w: World,
    r: Running,
    names: Names,
)
    requires
        0 <= r.pc < code.len(),
        operands_stand(m, w, r, names, code[r.pc]),
        code[r.pc] is Store || code[r.pc] is Memcpy,
    ensures
        ({
            let after = tick(code, w, Machine::On(r));
            after is On && writes(ins_text(m, code, r.pc), names, r.mem, after->On_0.mem)
        }),
{
    let line = ins_text(m, code, r.pc);
    let mem = tick(code, w, Machine::On(r))->On_0.mem;
    match code[r.pc] {
        Ins::Store(t, v, p) => {
            let (vt, pt) = (val_text(m, v), val_text(m, p));
            assert(line =~= "  store "@ + (ty_text(t) + " "@) + vt + ", ptr "@ + pt + "\n"@);
            assert(mem == r.mem.insert(names(pt), names(vt)));
        },
        Ins::Memcpy(d, s, n, al) => {
            assert(mem == moved(
                r.mem,
                dec(al as nat),
                names(val_text(m, d)),
                names(val_text(m, s)),
                names(val_text(m, n)),
            ));
        },
        _ => {},
    }
}

/// The line of a branch leads to the block that the instruction goes to, which
/// begins with a line of its name.
pub proof fn law_lines_lead_where_control_goes(
    m: ModuleV,
    code: Seq<Ins>,
    w: World,
    r: Running,
    names: Names,
    l: Label,
    at: int,
)
    requires
        0 <= r.pc < code.len(),
        operands_stand(m, w, r, names, code[r.pc]),
        code[r.pc] is Br || code[r.pc] is CondBr,
        tick(code, w, Machine::On(r)) == crate::machine::jump(code, r, l),
        match code[r.pc] {
            Ins::Br(a) => l == a,
            Ins::CondBr(c, a, b) => l == (if value(w, r, c) != 0 {
                a
            } else {
                b
            }),
            _ => false,
        },
        0 <= at < code.len(),
        code[at] == Ins::Label(l),
    ensures
        leads(ins_text(m, code, r.pc), names, label_text(l)),
        ins_text(m, code, at) == label_text(l) + ":\n"@,
{
    if let Ins::CondBr(c, a, b) = code[r.pc] {
        let ct = val_text(m, c);
        if value(w, r, c) != 0 {
            assert(taken(names(ct), label_text(b)));
        } else {
            assert(!taken(names(ct), label_text(a)));
        }
    }
}

/// The line of a return answers what the instruction answers, and no other line
/// ends a function but `unreachable`.
pub proof fn law_lines_answer_what_runs(
    m: ModuleV,
    code: Seq<Ins>,
    w: World,
    r: Running,
    names: Names,
)
    requires
        0 <= r.pc < code.len(),
        operands_stand(m, w, r, names, code[r.pc]),
        tick(code, w, Machine::On(r)) is Done,
    ensures
        ({
            let f = tick(code, w, Machine::On(r))->Done_0;
            if f.trapped {
                ins_text(m, code, r.pc) == "  unreachable\n"@
            } else {
                answers(ins_text(m, code, r.pc), names, f.result)
            }
        }),
{
    let line = ins_text(m, code, r.pc);
    if let Ins::Ret(t, v) = code[r.pc] {
        let vt = val_text(m, v);
        assert(line =~= "  ret "@ + (ty_text(t) + " "@) + vt + "\n"@);
        assert(Some(names(vt)) == tick(code, w, Machine::On(r))->Done_0.result);
    }
}

// ----- types and conversions ---------------------------------------------------------------------
/// How many bits an integer type has.
pub open spec fn width(t: Ty) -> Option<nat> {
    match t {
        Ty::I1 => Some(1),
        Ty::I8 => Some(8),
        Ty::I32 => Some(32),
        Ty::I64 => Some(64),
        _ => None,
    }
}

/// Integer types are written by their width, the others by their names.
pub proof fn law_types_are_written(t: Ty)
    ensures
        match width(t) {
            Some(n) => ty_text(t) == "i"@ + dec(n),
            None => ty_text(t) == (if t == Ty::F64 {
                "double"@
            } else if t == Ty::Ptr {
                "ptr"@
            } else {
                "void"@
            }),
        },
{
    reveal_strlit("i");
    reveal_strlit("i1");
    reveal_strlit("i8");
    reveal_strlit("i32");
    reveal_strlit("i64");
    reveal_with_fuel(dec, 3);
    assert("i1"@ =~= "i"@ + dec(1));
    assert("i8"@ =~= "i"@ + dec(8));
    assert("i32"@ =~= "i"@ + dec(32));
    assert("i64"@ =~= "i"@ + dec(64));
}

/// The types that a conversion goes between.
pub open spec fn between(c: Conv) -> (Ty, Ty) {
    match c {
        Conv::FloatBits => (Ty::F64, Ty::I64),
        Conv::BitsFloat => (Ty::I64, Ty::F64),
        Conv::BoolWord => (Ty::I1, Ty::I64),
        Conv::WordBool => (Ty::I64, Ty::I1),
        Conv::PtrWord => (Ty::Ptr, Ty::I64),
        Conv::WordPtr => (Ty::I64, Ty::Ptr),
        Conv::Trunc32 => (Ty::I64, Ty::I32),
        Conv::Sext32 => (Ty::I32, Ty::I64),
    }
}

/// Whether LLVM's conversion of that name goes between two types: integers are
/// cut off, or extended, a truth value without sign and a number with it; bits
/// are read as a float and back; pointers are numbers.
pub open spec fn goes_between(word: Seq<char>, from: Ty, to: Ty) -> bool {
    ||| word == "trunc"@ && width(from) is Some && width(to) is Some && width(from)->0
        > width(to)->0
    ||| word == "zext"@ && from == Ty::I1 && width(to) is Some && to != Ty::I1
    ||| word == "sext"@ && from != Ty::I1 && width(from) is Some && width(to) is Some
        && width(from)->0 < width(to)->0
    ||| word == "bitcast"@ && ((from == Ty::F64 && width(to) == Some(64nat)) || (to == Ty::F64
        && width(from) == Some(64nat)))
    ||| word == "ptrtoint"@ && from == Ty::Ptr && width(to) is Some
    ||| word == "inttoptr"@ && width(from) is Some && to == Ty::Ptr
}

/// The line of a conversion converts between the types that it is for.
pub proof fn law_conversions_go_between_their_types(m: ModuleV, code: Seq<Ins>, i: int)
    requires
        0 <= i < code.len(),
        code[i] is Convert,
    ensures
        code[i] matches Ins::Convert(c, v) ==> exists|word: Seq<char>|
            ins_text(m, code, i) == "  %t"@ + dec(i as nat) + " = "@ + word + " "@ + ty_text(
                between(c).0,
            ) + " "@ + val_text(m, v) + " to "@ + ty_text(between(c).1) + "\n"@
                && #[trigger] goes_between(word, between(c).0, between(c).1),
{
    if let Ins::Convert(c, v) = code[i] {
        let (from, to) = between(c);
        let word = conversion(c);
        lemma_conversion(c);
        lemma_line(
            "  %t"@ + dec(i as nat) + " = "@,
            word,
            " "@,
            ty_text(from),
            val_text(m, v),
            " to "@,
            ty_text(to),
            "\n"@,
        );
    }
}

/// LLVM's name for a conversion.
spec fn conversion(c: Conv) -> Seq<char> {
    match c {
        Conv::FloatBits => "bitcast"@,
        Conv::BitsFloat => "bitcast"@,
        Conv::BoolWord => "zext"@,
        Conv::WordBool => "trunc"@,
        Conv::PtrWord => "ptrtoint"@,
        Conv::WordPtr => "inttoptr"@,
        Conv::Trunc32 => "trunc"@,
        Conv::Sext32 => "sext"@,
    }
}

proof fn lemma_conversion(c: Conv)
    ensures
        conv_from(c) == conversion(c) + " "@ + ty_text(between(c).0) + " "@,
        conv_to(c) == " to "@ + ty_text(between(c).1) + "\n"@,
        goes_between(conversion(c), between(c).0, between(c).1),
{
    lemma_conversion_words();
}

proof fn lemma_line(
    d: Seq<char>,
    a: Seq<char>,
    b: Seq<char>,
    e: Seq<char>,
    f: Seq<char>,
    g: Seq<char>,
    h: Seq<char>,
    k: Seq<char>,
)
    ensures
        d + (a + b + e + b) + f + (g + h + k) == d + a + b + e + b + f + g + h + k,
{
}

proof fn lemma_conversion_words()
    ensures
        "bitcast double "@ == "bitcast"@ + " "@ + "double"@ + " "@,
        "bitcast i64 "@ == "bitcast"@ + " "@ + "i64"@ + " "@,
        "zext i1 "@ == "zext"@ + " "@ + "i1"@ + " "@,
        "trunc i64 "@ == "trunc"@ + " "@ + "i64"@ + " "@,
        "ptrtoint ptr "@ == "ptrtoint"@ + " "@ + "ptr"@ + " "@,
        "inttoptr i64 "@ == "inttoptr"@ + " "@ + "i64"@ + " "@,
        "sext i32 "@ == "sext"@ + " "@ + "i32"@ + " "@,
        " to i64\n"@ == " to "@ + "i64"@ + "\n"@,
        " to double\n"@ == " to "@ + "double"@ + "\n"@,
        " to i1\n"@ == " to "@ + "i1"@ + "\n"@,
        " to ptr\n"@ == " to "@ + "ptr"@ + "\n"@,
        " to i32\n"@ == " to "@ + "i32"@ + "\n"@,
{
    reveal_strlit("bitcast double ");
    reveal_strlit("bitcast i64 ");
    reveal_strlit("zext i1 ");
    reveal_strlit("trunc i64 ");
    reveal_strlit("ptrtoint ptr ");
    reveal_strlit("inttoptr i64 ");
    reveal_strlit("sext i32 ");
    reveal_strlit(" to i64\n");
    reveal_strlit(" to double\n");
    reveal_strlit(" to i1\n");
    reveal_strlit(" to ptr\n");
    reveal_strlit(" to i32\n");
    reveal_strlit("bitcast");
    reveal_strlit("zext");
    reveal_strlit("trunc");
    reveal_strlit("ptrtoint");
    reveal_strlit("inttoptr");
    reveal_strlit("sext");
    reveal_strlit("double");
    reveal_strlit("ptr");
    reveal_strlit("i64");
    reveal_strlit("i32");
    reveal_strlit("i1");
    reveal_strlit(" ");
    reveal_strlit(" to ");
    reveal_strlit("\n");
}

// ----- registers, parameters, merges -------------------------------------------------------------
/// What a line that gives a value begins with is the operand that stands for the
/// value.
pub proof fn law_registers_are_named_by_their_lines(m: ModuleV, code: Seq<Ins>, i: usize)
    requires
        i < code.len(),
        code[i as int] is Alloca || code[i as int] is Load || code[i as int] is Bin
            || code[i as int] is Cmp || code[i as int] is FNeg || code[i as int] is Convert
            || code[i as int] is Select || code[i as int] is Phi || code[i as int] is Gep || (
        code[i as int] matches Ins::Call(ret, _, _) && ret != Ty::Void),
    ensures
        ({
            let name = "  "@ + val_text(m, Val::Reg(i)) + " = "@;
            let line = ins_text(m, code, i as int);
            name.len() <= line.len() && line.take(name.len() as int) == name
        }),
{
    reveal_strlit("  ");
    reveal_strlit("%t");
    reveal_strlit("  %t");
    reveal_strlit(" = ");
    reveal_strlit(" = alloca ");
    reveal_strlit(" = load ");
    reveal_strlit(" = fneg double ");
    reveal_strlit(" = select i1 ");
    reveal_strlit(" = phi ");
    reveal_strlit(" = getelementptr ");
    reveal_strlit(" = call ");
    let name = "  "@ + val_text(m, Val::Reg(i)) + " = "@;
    let line = ins_text(m, code, i as int);
    assert(name =~= "  %t"@ + dec(i as nat) + " = "@);
    assert(line.take(name.len() as int) =~= name);
}

/// A value that is merged where two blocks meet is named once for each of them.
pub proof fn law_merges_name_their_blocks(m: ModuleV, code: Seq<Ins>, w: World, r: Running)
    requires
        0 <= r.pc < code.len(),
        code[r.pc] is Phi,
    ensures
        code[r.pc] matches Ins::Phi(t, a, la, b, lb) ==> {
            let x = tick(code, w, Machine::On(r))->On_0.regs[r.pc];
            &&& ins_text(m, code, r.pc) == "  %t"@ + dec(r.pc as nat) + " = phi "@ + ty_text(t)
                + " [ "@ + val_text(m, a) + ", %"@ + label_text(la) + " ], [ "@ + val_text(m, b)
                + ", %"@ + label_text(lb) + " ]\n"@
            &&& r.before == la ==> x == value(w, r, a)
            &&& r.before == lb && lb != la ==> x == value(w, r, b)
        },
{
}

/// The line of a stack slot asks for a slot of its type.
pub proof fn law_slots_are_asked_for(m: ModuleV, code: Seq<Ins>, i: int)
    requires
        0 <= i < code.len(),
        code[i] is Alloca,
    ensures
        code[i] matches Ins::Alloca(t) ==> ins_text(m, code, i) == "  %t"@ + dec(i as nat)
            + " = alloca "@ + ty_text(t) + "\n"@,
{
}

/// Texts in a row, with commas between them.
pub open spec fn listed(parts: Seq<Seq<char>>) -> Seq<char>
    decreases parts.len(),
{
    if parts.len() == 0 {
        Seq::empty()
    } else if parts.len() == 1 {
        parts[0]
    } else {
        listed(parts.drop_last()) + ", "@ + parts.last()
    }
}

/// The arguments of a call are listed in the order in which they are passed, each
/// behind its type.
pub proof fn law_arguments_are_listed(m: ModuleV, code: Seq<Ins>, from: int, n: nat)
    requires
        0 <= from,
        from + n <= code.len(),
        forall|k: int| from <= k < from + n ==> #[trigger] code[k] is Arg,
    ensures
        args_text(m, code, from, n) == listed(
            Seq::new(
                n,
                |k: int|
                    ty_text(code[from + k]->Arg_0) + " "@ + val_text(m, code[from + k]->Arg_1),
            ),
        ),
    decreases n,
{
    let parts = Seq::new(
        n,
        |k: int| ty_text(code[from + k]->Arg_0) + " "@ + val_text(m, code[from + k]->Arg_1),
    );
    if n > 0 {
        let less = (n - 1) as nat;
        law_arguments_are_listed(m, code, from, less);
        assert(parts.drop_last() =~= Seq::new(
            less,
            |k: int| ty_text(code[from + k]->Arg_0) + " "@ + val_text(m, code[from + k]->Arg_1),
        ));
        assert(code[from + n - 1] is Arg);
        assert(code[from] is Arg);
    }
}

/// The parameters of a function are listed in order, each by the operand that
/// stands for it, behind its type.
pub proof fn law_parameters_are_listed(m: ModuleV, params: Seq<Ty>, n: nat)
    requires
        n <= params.len() <= usize::MAX,
    ensures
        formals_text(params, n) == listed(
            Seq::new(
                n,
                |k: int| ty_text(params[k]) + " "@ + val_text(m, Val::Param(k as usize)),
            ),
        ),
    decreases n,
{
    let parts = Seq::new(
        n,
        |k: int| ty_text(params[k]) + " "@ + val_text(m, Val::Param(k as usize)),
    );
    if n > 0 {
        let less = (n - 1) as nat;
        law_parameters_are_listed(m, params, less);
        assert(parts.drop_last() =~= Seq::new(
            less,
            |k: int| ty_text(params[k]) + " "@ + val_text(m, Val::Param(k as usize)),
        ));
        reveal_strlit(" ");
        reveal_strlit("%p");
        reveal_strlit(" %p");
        let t = ty_text(params[n - 1]);
        assert(t + " %p"@ + dec(less) =~= t + " "@ + ("%p"@ + dec(less)));
    }
}

/// The line of a call names who is called and passes the arguments that stand
/// before it; one that returns something gives it to its register.
pub proof fn law_calls_are_written(m: ModuleV, code: Seq<Ins>, i: int)
    requires
        0 <= i < code.len(),
        code[i] is Call,
    ensures
        code[i] matches Ins::Call(ret, callee, n) ==> {
            let what = sig_text(m, ret, callee) + callee_text(m, callee) + "("@ + args_text(
                m,
                code,
                i - n,
                n as nat,
            ) + ")\n"@;
            &&& ret == Ty::Void ==> ins_text(m, code, i) == "  call "@ + what
            &&& ret != Ty::Void ==> ins_text(m, code, i) == "  %t"@ + dec(i as nat) + " = call "@
                + what
            &&& callee matches Callee::Symbol(k) ==> k < m.symbols.len() ==> callee_text(m, callee)
                == "@"@ + m.symbols[k as int].name
            &&& callee matches Callee::Pointer(v) ==> callee_text(m, callee) == val_text(m, v)
        },
{
    if let Ins::Call(ret, callee, n) = code[i] {
        let what = sig_text(m, ret, callee) + callee_text(m, callee) + "("@ + args_text(
            m,
            code,
            i - n,
            n as nat,
        ) + ")\n"@;
        if ret == Ty::Void {
            assert(ins_text(m, code, i) =~= "  call "@ + what);
        } else {
            assert(ins_text(m, code, i) =~= "  %t"@ + dec(i as nat) + " = call "@ + what);
        }
    }
}

/// The functions of the C library are called and declared as C declares them.
pub proof fn law_c_functions_are_declared(c: Libc)
    ensures
        match c {
            Libc::Printf => libc_ret(c) + " @"@ + libc_name(c) + "("@ + libc_params(c) + ")"@
                == "i32 @printf(ptr, ...)"@,
            Libc::Snprintf => libc_ret(c) + " @"@ + libc_name(c) + "("@ + libc_params(c) + ")"@
                == "i32 @snprintf(ptr, i64, ptr, ...)"@,
            Libc::Strlen => libc_ret(c) + " @"@ + libc_name(c) + "("@ + libc_params(c) + ")"@
                == "i64 @strlen(ptr)"@,
            Libc::Compare => libc_ret(c) + " @"@ + libc_name(c) + "("@ + libc_params(c) + ")"@
                == "i32 @strcmp(ptr, ptr)"@,
            Libc::Malloc => libc_ret(c) + " @"@ + libc_name(c) + "("@ + libc_params(c) + ")"@
                == "ptr @malloc(i64)"@,
            Libc::Free => libc_ret(c) + " @"@ + libc_name(c) + "("@ + libc_params(c) + ")"@
                == "void @free(ptr)"@,
            Libc::Exit => libc_ret(c) + " @"@ + libc_name(c) + "("@ + libc_params(c) + ")"@
                == "void @exit(i32)"@,
        },
{
    reveal_strlit(" @");
    reveal_strlit("(");
    reveal_strlit(")");
    reveal_strlit("i32");
    reveal_strlit("i64");
    reveal_strlit("ptr");
    reveal_strlit("void");
    reveal_strlit("printf");
    reveal_strlit("snprintf");
    reveal_strlit("strlen");
    reveal_strlit("strcmp");
    reveal_strlit("malloc");
    reveal_strlit("free");
    reveal_strlit("exit");
    reveal_strlit("ptr, ...");
    reveal_strlit("ptr, i64, ptr, ...");
    reveal_strlit("ptr, ptr");
    reveal_strlit("i32 @printf(ptr, ...)");
    reveal_strlit("i32 @snprintf(ptr, i64, ptr, ...)");
    reveal_strlit("i64 @strlen(ptr)");
    reveal_strlit("i32 @strcmp(ptr, ptr)");
    reveal_strlit("ptr @malloc(i64)");
    reveal_strlit("void @free(ptr)");
    reveal_strlit("void @exit(i32)");
    let whole = libc_ret(c) + " @"@ + libc_name(c) + "("@ + libc_params(c) + ")"@;
    match c {
        Libc::Printf => assert(whole =~= "i32 @printf(ptr, ...)"@),
        Libc::Snprintf => assert(whole =~= "i32 @snprintf(ptr, i64, ptr, ...)"@),
        Libc::Strlen => assert(whole =~= "i64 @strlen(ptr)"@),
        Libc::Compare => assert(whole =~= "i32 @strcmp(ptr, ptr)"@),
        Libc::Malloc => assert(whole =~= "ptr @malloc(i64)"@),
        Libc::Free => assert(whole =~= "void @free(ptr)"@),
        Libc::Exit => assert(whole =~= "void @exit(i32)"@),
    }
}

} // verus!
