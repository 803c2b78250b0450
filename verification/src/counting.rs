//! Where references are retained and released.
//!
//! Ownership model:
//! - A `let` binding owns one reference. Binding from an existing variable
//!   (`let b = a`) aliases it, so a `Retain` is inserted; binding a fresh
//!   value (literal, concat, call result) takes over the +1 it was born with.
//! - Function arguments are **borrowed** from the caller. To keep mutation of
//!   heap-typed parameters uniform, the callee retains each heap parameter
//!   (its receiver among them) on entry and releases it on exit.
//! - Function return values are **owned (+1)** by the caller. `return e`
//!   is rewritten to `let $ret = e` (retaining if it aliases), followed by
//!   releases of every live local, followed by `return $ret`.
//! - A heap value used as a bare expression statement is bound to a
//!   synthetic temporary and released immediately; where it is a variable's,
//!   it is retained before that.
//! - The variable of a `for x in xs` loop and the bindings of a match arm
//!   arrive retained; the loop body and the arm own them. The loop itself owns
//!   the array that it goes over, unless that is a variable's.
//! - `break` / `continue` release the locals of every scope between the
//!   statement and the loop body, inclusive.
//!
//! References are counted by name. Where another binding of the same name hides
//! the one that is meant, a prime says so (see [`crate::naming`]).
//!
//! Reassignment (`s = <expr>`) is left to lowering, which must evaluate the
//! right-hand side *before* releasing the old value (consider `s = s + "x"`).
use vstd::prelude::*;
use crate::ast::{ArmV, ExprV, FunctionV, KindV, PatternV, ProgramV, StmtV, Type};
use crate::diag::Span;
use crate::lexer::is_name;
use crate::lowering::all_params;
use crate::naming::primed;
use crate::text::{dec, lemma_numerals_tell};

verus! {

/// A binding in sight: its name, and whether it is of a heap type. The
/// innermost scope that declares a heap binding owns what it refers to.
#[verifier::ext_equal]
pub struct BindingV {
    pub name: Seq<char>,
    pub heap: bool,
}

/// The bindings in sight, outermost first, how many of them are outside the
/// body of the innermost loop, and the number of the next synthetic temporary.
#[verifier::ext_equal]
pub struct ArcV {
    pub binds: Seq<BindingV>,
    pub around: nat,
    pub tmp: usize,
}

/// Whether control never passes a statement.
pub open spec fn terminator(s: StmtV) -> bool {
    s is Return || s is Break || s is Continue
}

/// Whether the last statement is passed.
pub open spec fn falls_through(out: Seq<StmtV>) -> bool {
    out.len() == 0 || !terminator(out.last())
}

pub open spec fn heap_type(ty: Option<Type>) -> bool {
    ty matches Some(t) && t.heap()
}

/// Whether the elements of an array of that type live on the heap.
pub open spec fn heap_elem(ty: Option<Type>) -> bool {
    ty matches Some(t) && t.elem() matches Some(e) && e.heap()
}

/// The name of a synthetic temporary.
pub open spec fn tmp_name(n: usize) -> Seq<char> {
    "$arc"@ + dec(n as nat)
}

/// Whether a name belongs to a synthetic temporary; none in a source text does.
pub open spec fn synthetic(name: Seq<char>) -> bool {
    name.len() > 0 && name[0] == '$'
}

/// The name that the array of a `for x in xs` loop is held under, where the
/// loop owns it: none that a program is written with.
pub open spec fn holder(var: Seq<char>) -> Seq<char> {
    "in "@ + var
}

/// Whether a loop owns the array it goes over: a fresh one, not a variable's.
pub open spec fn owns_iterable(iterable: ExprV) -> bool {
    !(iterable.kind is Var)
}

/// The number after `n`.
pub open spec fn tmp_after(n: usize) -> usize {
    if n < usize::MAX {
        (n + 1) as usize
    } else {
        0
    }
}

/// How many of some bindings have that name.
pub open spec fn level(binds: Seq<BindingV>, name: Seq<char>) -> nat
    decreases binds.len(),
{
    if binds.len() == 0 {
        0
    } else {
        level(binds.drop_last(), name) + (if binds.last().name == name {
            1nat
        } else {
            0
        })
    }
}

/// What a binding is counted by: its name, with a prime for each binding behind
/// it that has the same name and so hides it.
#[verifier::opaque]
pub open spec fn counted_name(binds: Seq<BindingV>, i: int) -> Seq<char> {
    let name = binds[i].name;
    primed(name, (level(binds, name) - level(binds.take(i + 1), name)) as nat)
}

/// Releases of the heap bindings from position `from` on among the first `n`,
/// the last one first.
#[verifier::opaque]
pub open spec fn drops(binds: Seq<BindingV>, from: nat, n: nat) -> Seq<StmtV>
    decreases n,
{
    if n <= from {
        Seq::empty()
    } else if binds[n - 1].heap {
        seq![StmtV::Release(counted_name(binds, n - 1))] + drops(binds, from, (n - 1) as nat)
    } else {
        drops(binds, from, (n - 1) as nat)
    }
}

/// Retains of the heap bindings among the first `n`, the first one first.
#[verifier::opaque]
pub open spec fn takes(binds: Seq<BindingV>, n: nat) -> Seq<StmtV>
    decreases n,
{
    if n == 0 {
        Seq::empty()
    } else if binds[n - 1].heap {
        takes(binds, (n - 1) as nat).push(StmtV::Retain(counted_name(binds, n - 1)))
    } else {
        takes(binds, (n - 1) as nat)
    }
}

/// Whether anything in sight is owned.
pub open spec fn any_owned(binds: Seq<BindingV>) -> bool {
    exists|i: int| 0 <= i < binds.len() && (#[trigger] binds[i]).heap
}

/// A binding, and the retain of an alias.
pub open spec fn arc_let(st: ArcV, name: Seq<char>, ty: Option<Type>, value: ExprV, line: usize)
    -> (
    Seq<StmtV>,
    ArcV,
) {
    let bind = StmtV::Let { name, ty, value, line };
    (
        if heap_type(ty) && value.kind is Var {
            seq![bind, StmtV::Retain(name)]
        } else {
            seq![bind]
        },
        ArcV { binds: st.binds.push(BindingV { name, heap: heap_type(ty) }), ..st },
    )
}

/// A bare expression; a heap value is bound so that it can be released, and
/// retained before that where it is a variable's.
pub open spec fn arc_expr(st: ArcV, e: ExprV) -> (Seq<StmtV>, ArcV) {
    if heap_type(e.ty) {
        let name = tmp_name(st.tmp);
        let bind = StmtV::Let { name, ty: e.ty, value: e, line: e.span.line };
        (
            if e.kind is Var {
                seq![bind, StmtV::Retain(name), StmtV::Release(name)]
            } else {
                seq![bind, StmtV::Release(name)]
            },
            ArcV { tmp: tmp_after(st.tmp), ..st },
        )
    } else {
        (seq![StmtV::Expr(e)], st)
    }
}

/// `return e` → `let $ret = e` (+ retain if aliasing), release all live
/// locals, `return $ret`. Ownership of the result transfers to the caller.
pub open spec fn arc_return(st: ArcV, value: Option<ExprV>, line: usize) -> (Seq<StmtV>, ArcV) {
    if !any_owned(st.binds) {
        (seq![StmtV::Return { value, line }], st)
    } else {
        let dropped = drops(st.binds, 0, st.binds.len());
        match value {
            None => (dropped.push(StmtV::Return { value, line }), st),
            Some(e) => {
                let name = tmp_name(st.tmp);
                let bind = StmtV::Let { name, ty: e.ty, value: e, line };
                let bound = if heap_type(e.ty) && e.kind is Var {
                    seq![bind, StmtV::Retain(name)]
                } else {
                    seq![bind]
                };
                let result = ExprV { kind: KindV::Var(name), span: Span::of_line(line), ty: e.ty };
                (
                    (bound + dropped).push(StmtV::Return { value: Some(result), line }),
                    ArcV { tmp: tmp_after(st.tmp), ..st },
                )
            },
        }
    }
}

/// What a jump out of the body of the innermost loop, or to its next round,
/// becomes.
pub open spec fn arc_jump(st: ArcV, s: StmtV) -> Seq<StmtV> {
    drops(st.binds, st.around, st.binds.len()).push(s)
}

/// The bindings of an arm.
pub open spec fn arm_bindings(pattern: PatternV) -> Seq<BindingV> {
    match pattern {
        PatternV::Wildcard => Seq::empty(),
        PatternV::Variant { name, bindings, types } => Seq::new(
            bindings.len(),
            |i: int|
                BindingV { name: bindings[i], heap: i < types.len() && types[i].heap() },
        ),
    }
}

/// The array that a `for x in xs` loop holds, where it is the loop's own.
pub open spec fn held_bindings(var: Seq<char>, iterable: ExprV) -> Seq<BindingV> {
    if owns_iterable(iterable) {
        seq![BindingV { name: holder(var), heap: true }]
    } else {
        Seq::empty()
    }
}

/// The state inside the body of a loop whose variable is `var`, with `held`
/// outside of it.
pub open spec fn inside(st: ArcV, held: Seq<BindingV>, var: BindingV) -> ArcV {
    ArcV { binds: (st.binds + held).push(var), around: st.binds.len() + held.len(), ..st }
}

/// What a statement becomes, and the state behind it.
pub open spec fn arc_stmt(st: ArcV, s: StmtV) -> (Seq<StmtV>, ArcV)
    decreases s, 0nat,
{
    let n = st.binds.len();
    match s {
        StmtV::Let { name, ty, value, line } => arc_let(st, name, ty, value, line),
        StmtV::Expr(e) => arc_expr(st, e),
        StmtV::Return { value, line } => arc_return(st, value, line),
        StmtV::Break { line } => (arc_jump(st, s), st),
        StmtV::Continue { line } => (arc_jump(st, s), st),
        StmtV::If { cond, then_block, else_block } => {
            let (then1, tmp1) = arc_block(st, then_block, n);
            match else_block {
                None => (
                    seq![StmtV::If { cond, then_block: then1, else_block }],
                    ArcV { tmp: tmp1, ..st },
                ),
                Some(b) => {
                    let (else1, tmp2) = arc_block(ArcV { tmp: tmp1, ..st }, b, n);
                    (
                        seq![StmtV::If { cond, then_block: then1, else_block: Some(else1) }],
                        ArcV { tmp: tmp2, ..st },
                    )
                },
            }
        },
        StmtV::While { cond, body } => {
            let (body1, tmp1) = arc_block(ArcV { around: n, ..st }, body, n);
            (seq![StmtV::While { cond, body: body1 }], ArcV { tmp: tmp1, ..st })
        },
        StmtV::For { var, start, end, body, line } => {
            // The loop variable is an int — never heap.
            let counter = BindingV { name: var, heap: false };
            let (body1, tmp1) = arc_block(inside(st, Seq::empty(), counter), body, n);
            (
                seq![StmtV::For { var, start, end, body: body1, line }],
                ArcV { tmp: tmp1, ..st },
            )
        },
        StmtV::ForEach { var, iterable, body, line } => {
            let held = held_bindings(var, iterable);
            let elem = BindingV { name: var, heap: heap_elem(iterable.ty) };
            let (body1, tmp1) = arc_block(inside(st, held, elem), body, n + held.len());
            (
                seq![StmtV::ForEach { var, iterable, body: body1, line }],
                ArcV { tmp: tmp1, ..st },
            )
        },
        StmtV::Match { scrutinee, arms, line } => {
            let (arms1, tmp1) = arc_arms(st, arms, 0);
            (seq![StmtV::Match { scrutinee, arms: arms1, line }], ArcV { tmp: tmp1, ..st })
        },
        StmtV::Assign { .. } => (seq![s], st),
        StmtV::IndexAssign { .. } => (seq![s], st),
        StmtV::FieldAssign { .. } => (seq![s], st),
        StmtV::Retain(_) => (seq![s], st),
        StmtV::Release(_) => (seq![s], st),
    }
}

/// What a block becomes, and the number of the next temporary. It releases the
/// heap bindings from position `from` on at its end, unless control already
/// left via return/break/continue (those released eagerly).
pub open spec fn arc_block(st: ArcV, b: Seq<StmtV>, from: nat) -> (Seq<StmtV>, usize)
    decreases b, b.len() + 1,
{
    let (out, st1) = arc_stmts(st, b, 0);
    (
        if falls_through(out) {
            out + drops(st1.binds, from, st1.binds.len())
        } else {
            out
        },
        st1.tmp,
    )
}

/// What the statements of a block from position `i` on become.
pub open spec fn arc_stmts(st: ArcV, b: Seq<StmtV>, i: int) -> (Seq<StmtV>, ArcV)
    decreases b, b.len() - i,
{
    if i < 0 || i >= b.len() {
        (Seq::empty(), st)
    } else {
        let (out, st1) = arc_stmt(st, b[i]);
        let (rest, st2) = arc_stmts(st1, b, i + 1);
        (out + rest, st2)
    }
}

/// What the arms of a match from position `i` on become.
pub open spec fn arc_arms(st: ArcV, arms: Seq<ArmV>, i: int) -> (Seq<ArmV>, usize)
    decreases arms, arms.len() - i,
{
    if i < 0 || i >= arms.len() {
        (Seq::empty(), st.tmp)
    } else {
        let (arm, tmp1) = arc_arm(st, arms[i]);
        let (rest, tmp2) = arc_arms(ArcV { tmp: tmp1, ..st }, arms, i + 1);
        (seq![arm] + rest, tmp2)
    }
}

/// What one arm becomes: it owns its bindings from the start.
pub open spec fn arc_arm(st: ArcV, arm: ArmV) -> (ArmV, usize)
    decreases arm, 0nat,
{
    let inner = ArcV { binds: st.binds + arm_bindings(arm.pattern), ..st };
    let (body, tmp1) = arc_block(inner, arm.body, st.binds.len());
    (ArmV { pattern: arm.pattern, body }, tmp1)
}

/// The parameters of a function, its receiver first.
pub open spec fn param_bindings(f: FunctionV) -> Seq<BindingV> {
    let params = all_params(f);
    Seq::new(
        params.len(),
        |i: int| BindingV { name: params[i].name, heap: params[i].ty.heap() },
    )
}

/// What a function becomes: its heap parameters are retained on entry, and
/// released where control falls off the end, behind the locals of its body.
pub open spec fn arc_function(tmp: usize, f: FunctionV) -> (FunctionV, usize) {
    let params = param_bindings(f);
    let (body, tmp1) = arc_block(ArcV { binds: params, around: 0, tmp }, f.body, 0);
    (FunctionV { body: takes(params, params.len()) + body, ..f }, tmp1)
}

/// What the functions from position `i` on become.
pub open spec fn arc_functions(tmp: usize, fs: Seq<FunctionV>, i: int) -> (Seq<FunctionV>, usize)
    decreases fs.len() - i,
{
    if i < 0 || i >= fs.len() {
        (Seq::empty(), tmp)
    } else {
        let (f, tmp1) = arc_function(tmp, fs[i]);
        let (rest, tmp2) = arc_functions(tmp1, fs, i + 1);
        (seq![f] + rest, tmp2)
    }
}

/// What a program becomes, and the number of the next temporary.
pub open spec fn arc_program(tmp: usize, p: ProgramV) -> (ProgramV, usize) {
    let (functions, tmp1) = arc_functions(tmp, p.functions, 0);
    (ProgramV { functions, ..p }, tmp1)
}

// ----- temporaries ------------------------------------------------------------------------------
/// The number of the temporary that is taken behind `n` others.
pub open spec fn nth_tmp(n: nat) -> usize
    decreases n,
{
    if n == 0 {
        0
    } else {
        tmp_after(nth_tmp((n - 1) as nat))
    }
}

proof fn lemma_nth_tmp(n: nat)
    requires
        n <= usize::MAX,
    ensures
        nth_tmp(n) == n,
    decreases n,
{
    if n > 0 {
        lemma_nth_tmp((n - 1) as nat);
    }
}

/// Temporaries are numbered from 0 on; no two of them have one name, and none
/// has a name that a program can be written with.
pub proof fn law_temporaries_are_new(i: nat, j: nat)
    requires
        i < j <= usize::MAX,
    ensures
        tmp_name(nth_tmp(i)) == "$arc"@ + dec(i),
        tmp_name(nth_tmp(i)) != tmp_name(nth_tmp(j)),
        !is_name(tmp_name(nth_tmp(i))),
        !is_name(tmp_name(nth_tmp(j))),
{
    lemma_nth_tmp(i);
    lemma_nth_tmp(j);
    reveal_strlit("$arc");
    let a = tmp_name(nth_tmp(i));
    let b = tmp_name(nth_tmp(j));
    assert("$arc"@.len() == 4);
    assert(a[0] == "$arc"@[0] && b[0] == "$arc"@[0]);
    assert(a.skip(4) =~= dec(i));
    assert(b.skip(4) =~= dec(j));
    if a == b {
        lemma_numerals_tell(i, j);
    }
}

} // verus!
