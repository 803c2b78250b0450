//! Counting references only inserts.
//!
//! A counted program differs from the one it was made of by retains and
//! releases, and by temporaries: `let $arc0 = e` stands where `return e` or the
//! bare expression `e` stood. Taking the one out and putting the other back
//! gives the program as it was, and a program in which nothing is on the heap
//! is left as it is.
use vstd::prelude::*;
use crate::acceptance::written_function;
use crate::ast::{ArmV, ExprV, FunctionV, KindV, ProgramV, StmtV, Type};
use crate::counting::{
    any_owned, arc_arm, arc_arms, arc_block, arc_function, arc_functions, arc_program, arc_stmt,
    arc_stmts, arm_bindings, drops, falls_through, heap_elem, heap_type, held_bindings, inside,
    owns_iterable, param_bindings, synthetic, takes, tmp_name, ArcV, BindingV,
};
use crate::ir::Val;
use crate::lexer::is_word;
use crate::lowering::{bind_var, find_hidden, find_var, Gen};
use crate::naming::own_name;
use crate::tidy::{law_accepted_functions_are_tidy, tidy, tidy_arm, tidy_block};
use crate::typing::{analyzed, checked_functions, enter_all, fresh_state, State};

verus! {

// ----- putting back -----------------------------------------------------------------------------
/// Whether statements begin with the return of that variable.
pub open spec fn returns_var(b: Seq<StmtV>, name: Seq<char>) -> bool {
    b.len() > 0 && (b[0] matches StmtV::Return { value: Some(e), line } && e.kind == KindV::Var(
        name,
    ))
}

/// The statements of a counted block from position `i` on, as they were before:
/// without retains and releases, and with the value of each temporary where the
/// temporary is returned, or else as an expression of its own.
pub open spec fn restored(b: Seq<StmtV>, i: int) -> Seq<StmtV>
    decreases b, b.len() - i,
{
    if i < 0 || i >= b.len() {
        Seq::empty()
    } else {
        let rest = restored(b, i + 1);
        match b[i] {
            StmtV::Retain(_) => rest,
            StmtV::Release(_) => rest,
            StmtV::Let { name, ty, value, line } => if !synthetic(name) {
                seq![b[i]] + rest
            } else if returns_var(rest, name) {
                seq![StmtV::Return { value: Some(value), line: rest[0]->Return_line }] + rest.skip(
                    1,
                )
            } else {
                seq![StmtV::Expr(value)] + rest
            },
            _ => seq![restored_stmt(b[i])] + rest,
        }
    }
}

/// A statement with the blocks inside it as they were.
pub open spec fn restored_stmt(s: StmtV) -> StmtV
    decreases s, 0int,
{
    match s {
        StmtV::If { cond, then_block, else_block } => StmtV::If {
            cond,
            then_block: restored(then_block, 0),
            else_block: match else_block {
                Some(b) => Some(restored(b, 0)),
                None => None,
            },
        },
        StmtV::While { cond, body } => StmtV::While { cond, body: restored(body, 0) },
        StmtV::For { var, start, end, body, line } => StmtV::For {
            var,
            start,
            end,
            body: restored(body, 0),
            line,
        },
        StmtV::ForEach { var, iterable, body, line } => StmtV::ForEach {
            var,
            iterable,
            body: restored(body, 0),
            line,
        },
        StmtV::Match { scrutinee, arms, line } => StmtV::Match {
            scrutinee,
            arms: restored_arms(arms, 0),
            line,
        },
        _ => s,
    }
}

/// The arms from position `i` on as they were.
pub open spec fn restored_arms(arms: Seq<ArmV>, i: int) -> Seq<ArmV>
    decreases arms, arms.len() - i,
{
    if i < 0 || i >= arms.len() {
        Seq::empty()
    } else {
        seq![restored_arm(arms[i])] + restored_arms(arms, i + 1)
    }
}

pub open spec fn restored_arm(arm: ArmV) -> ArmV
    decreases arm, 0int,
{
    ArmV { pattern: arm.pattern, body: restored(arm.body, 0) }
}

/// A function as it was.
pub open spec fn restored_function(f: FunctionV) -> FunctionV {
    FunctionV { body: restored(f.body, 0), ..f }
}

/// A program as it was.
pub open spec fn restored_program(p: ProgramV) -> ProgramV {
    ProgramV {
        functions: Seq::new(p.functions.len(), |i: int| restored_function(p.functions[i])),
        ..p
    }
}

// ----- statements without counts ----------------------------------------------------------------
/// Whether a statement counts no references, and neither binds nor returns a
/// temporary.
pub open spec fn plain(s: StmtV) -> bool
    decreases s,
{
    match s {
        StmtV::Let { name, ty, value, line } => !synthetic(name),
        StmtV::Return { value, line } => value matches Some(e) ==> (e.kind matches KindV::Var(x)
            ==> !synthetic(x)),
        StmtV::If { cond, then_block, else_block } => {
            &&& plain_block(then_block)
            &&& match else_block {
                Some(b) => plain_block(b),
                None => true,
            }
        },
        StmtV::While { cond, body } => plain_block(body),
        StmtV::For { var, start, end, body, line } => plain_block(body),
        StmtV::ForEach { var, iterable, body, line } => plain_block(body),
        StmtV::Match { scrutinee, arms, line } => plain_arms(arms),
        StmtV::Retain(_) => false,
        StmtV::Release(_) => false,
        _ => true,
    }
}

pub open spec fn plain_block(b: Seq<StmtV>) -> bool
    decreases b,
{
    forall|i: int| 0 <= i < b.len() ==> plain(#[trigger] b[i])
}

pub open spec fn plain_arm(arm: ArmV) -> bool
    decreases arm,
{
    plain_block(arm.body)
}

pub open spec fn plain_arms(arms: Seq<ArmV>) -> bool
    decreases arms,
{
    forall|i: int| 0 <= i < arms.len() ==> plain_arm(#[trigger] arms[i])
}

/// Whether statements begin with the return of a temporary.
spec fn opens(b: Seq<StmtV>) -> bool {
    b.len() > 0 && (b[0] matches StmtV::Return { value: Some(e), line } && (
    e.kind matches KindV::Var(x) && synthetic(x)))
}

// ----- lemmas on sequences ----------------------------------------------------------------------
proof fn lemma_shift(a: Seq<StmtV>, b: Seq<StmtV>, i: int)
    requires
        0 <= i,
    ensures
        restored(a + b, a.len() + i) == restored(b, i),
    decreases b.len() - i,
{
    if i < b.len() {
        assert((a + b)[a.len() + i] == b[i]);
        lemma_shift(a, b, i + 1);
    }
}

/// A count in front is taken out.
proof fn lemma_count(s: StmtV, b: Seq<StmtV>)
    requires
        s is Retain || s is Release,
    ensures
        restored(seq![s] + b, 0) == restored(b, 0),
{
    let all = seq![s] + b;
    assert(all[0] == s);
    lemma_shift(seq![s], b, 0);
}

/// So is a stretch of releases.
proof fn lemma_drops(binds: Seq<BindingV>, from: nat, n: nat, b: Seq<StmtV>)
    requires
        n <= binds.len(),
    ensures
        restored(drops(binds, from, n) + b, 0) == restored(b, 0),
    decreases n,
{
    reveal(drops);
    if n <= from {
        assert(drops(binds, from, n) + b =~= b);
    } else {
        let less = drops(binds, from, (n - 1) as nat);
        lemma_drops(binds, from, (n - 1) as nat, b);
        if binds[n - 1].heap {
            let s = drops(binds, from, n)[0];
            assert(drops(binds, from, n) + b =~= seq![s] + (less + b));
            lemma_count(s, less + b);
        }
    }
}

/// And one of retains.
proof fn lemma_takes(binds: Seq<BindingV>, n: nat, b: Seq<StmtV>)
    requires
        n <= binds.len(),
    ensures
        restored(takes(binds, n) + b, 0) == restored(b, 0),
    decreases n,
{
    reveal(takes);
    if n == 0 {
        assert(takes(binds, n) + b =~= b);
    } else {
        let less = takes(binds, (n - 1) as nat);
        if binds[n - 1].heap {
            let s = takes(binds, n).last();
            assert(takes(binds, n) + b =~= less + (seq![s] + b));
            lemma_takes(binds, (n - 1) as nat, seq![s] + b);
            lemma_count(s, b);
        } else {
            lemma_takes(binds, (n - 1) as nat, b);
        }
    }
}

/// Any other statement in front stays there.
proof fn lemma_front(s: StmtV, b: Seq<StmtV>)
    requires
        !(s is Retain || s is Release || s is Let),
    ensures
        restored(seq![s] + b, 0) == seq![restored_stmt(s)] + restored(b, 0),
{
    let all = seq![s] + b;
    assert(all[0] == s);
    lemma_shift(seq![s], b, 0);
}

/// A binding in front.
proof fn lemma_front_let(s: StmtV, b: Seq<StmtV>)
    requires
        s is Let,
    ensures
        ({
            let rest = restored(b, 0);
            let name = s->Let_name;
            let value = s->Let_value;
            restored(seq![s] + b, 0) == (if !synthetic(name) {
                seq![s] + rest
            } else if returns_var(rest, name) {
                seq![StmtV::Return { value: Some(value), line: rest[0]->Return_line }] + rest.skip(
                    1,
                )
            } else {
                seq![StmtV::Expr(value)] + rest
            })
        }),
{
    let all = seq![s] + b;
    assert(all[0] == s);
    lemma_shift(seq![s], b, 0);
}

proof fn lemma_tmp(n: usize)
    ensures
        synthetic(tmp_name(n)),
{
    reveal_strlit("$arc");
    assert("$arc"@.len() == 4);
    assert(tmp_name(n)[0] == "$arc"@[0]);
}

// ----- statements -------------------------------------------------------------------------------
/// What a statement becomes is restored to it.
proof fn lemma_stmt(st: ArcV, s: StmtV, rest: Seq<StmtV>)
    requires
        plain(s),
        !opens(restored(rest, 0)),
    ensures
        restored(arc_stmt(st, s).0 + rest, 0) == seq![s] + restored(rest, 0),
        !opens(seq![s] + restored(rest, 0)),
    decreases s, 1int,
{
    let out = arc_stmt(st, s).0;
    let n = st.binds.len();
    match s {
        StmtV::Let { name, ty, value, line } => {
            lemma_let(st, s, rest);
        },
        StmtV::Expr(e) => {
            lemma_bare(st, e, rest);
        },
        StmtV::Return { value, line } => {
            lemma_return(st, s, rest);
        },
        StmtV::Break { line } => {
            lemma_jump(st, s, rest);
        },
        StmtV::Continue { line } => {
            lemma_jump(st, s, rest);
        },
        StmtV::If { cond, then_block, else_block } => {
            lemma_block(st, then_block, n);
            let tmp = arc_block(st, then_block, n).1;
            if let Some(b) = else_block {
                lemma_block(ArcV { tmp, ..st }, b, n);
            }
            assert(out =~= seq![out[0]]);
            lemma_front(out[0], rest);
        },
        StmtV::While { cond, body } => {
            lemma_block(ArcV { around: n, ..st }, body, n);
            assert(out =~= seq![out[0]]);
            lemma_front(out[0], rest);
        },
        StmtV::For { var, start, end, body, line } => {
            let counter = BindingV { name: var, heap: false };
            lemma_block(inside(st, Seq::empty(), counter), body, n);
            assert(out =~= seq![out[0]]);
            lemma_front(out[0], rest);
        },
        StmtV::ForEach { var, iterable, body, line } => {
            let held = held_bindings(var, iterable);
            let elem = BindingV { name: var, heap: heap_elem(iterable.ty) };
            lemma_block(inside(st, held, elem), body, n + held.len());
            assert(out =~= seq![out[0]]);
            lemma_front(out[0], rest);
        },
        StmtV::Match { scrutinee, arms, line } => {
            lemma_arms(st, arms, 0);
            assert(arms.skip(0) =~= arms);
            assert(out =~= seq![out[0]]);
            lemma_front(out[0], rest);
        },
        _ => {
            assert(out =~= seq![s]);
            lemma_front(s, rest);
        },
    }
}

proof fn lemma_let(st: ArcV, s: StmtV, rest: Seq<StmtV>)
    requires
        plain(s),
        s is Let,
    ensures
        restored(arc_stmt(st, s).0 + rest, 0) == seq![s] + restored(rest, 0),
{
    let out = arc_stmt(st, s).0;
    if out.len() == 1 {
        assert(out =~= seq![s]);
        lemma_front_let(s, rest);
    } else {
        let more = out[1];
        assert(out + rest =~= seq![s] + (seq![more] + rest));
        lemma_front_let(s, seq![more] + rest);
        lemma_count(more, rest);
    }
}

/// A bare expression, which is bound where it is on the heap.
proof fn lemma_bare(st: ArcV, e: ExprV, rest: Seq<StmtV>)
    requires
        !opens(restored(rest, 0)),
    ensures
        restored(arc_stmt(st, StmtV::Expr(e)).0 + rest, 0) == seq![StmtV::Expr(e)] + restored(
            rest,
            0,
        ),
{
    let s = StmtV::Expr(e);
    let out = arc_stmt(st, s).0;
    if heap_type(e.ty) {
        lemma_tmp(st.tmp);
        let bind = out[0];
        let drop = out.last();
        if e.kind is Var {
            assert(out + rest =~= seq![bind] + (seq![out[1]] + (seq![drop] + rest)));
            lemma_front_let(bind, seq![out[1]] + (seq![drop] + rest));
            lemma_count(out[1], seq![drop] + rest);
        } else {
            assert(out + rest =~= seq![bind] + (seq![drop] + rest));
            lemma_front_let(bind, seq![drop] + rest);
        }
        lemma_count(drop, rest);
    } else {
        assert(out =~= seq![s]);
        lemma_front(s, rest);
    }
}

/// A return, whose value is bound where anything is released before it.
proof fn lemma_return(st: ArcV, s: StmtV, rest: Seq<StmtV>)
    requires
        s is Return,
    ensures
        restored(arc_stmt(st, s).0 + rest, 0) == seq![s] + restored(rest, 0),
{
    if let StmtV::Return { value, line } = s {
        let out = arc_stmt(st, s).0;
        let n = st.binds.len();
        let dropped = drops(st.binds, 0, n);
        if !any_owned(st.binds) {
            assert(out =~= seq![s]);
            lemma_front(s, rest);
        } else if let Some(e) = value {
            let name = tmp_name(st.tmp);
            lemma_tmp(st.tmp);
            let last = out.last();
            let bind = out[0];
            let tail = seq![last] + rest;
            lemma_front(last, rest);
            lemma_drops(st.binds, 0, n, tail);
            assert(restored(tail, 0) == seq![last] + restored(rest, 0));
            assert((seq![last] + restored(rest, 0)).skip(1) =~= restored(rest, 0));
            if heap_type(e.ty) && e.kind is Var {
                let keep = StmtV::Retain(name);
                assert(out + rest =~= seq![bind] + (seq![keep] + (dropped + tail)));
                lemma_front_let(bind, seq![keep] + (dropped + tail));
                lemma_count(keep, dropped + tail);
            } else {
                assert(out + rest =~= seq![bind] + (dropped + tail));
                lemma_front_let(bind, dropped + tail);
            }
        } else {
            let tail = seq![s] + rest;
            assert(out + rest =~= dropped + tail);
            lemma_drops(st.binds, 0, n, tail);
            lemma_front(s, rest);
        }
    }
}

proof fn lemma_jump(st: ArcV, s: StmtV, rest: Seq<StmtV>)
    requires
        s is Break || s is Continue,
    ensures
        restored(arc_stmt(st, s).0 + rest, 0) == seq![s] + restored(rest, 0),
{
    let out = arc_stmt(st, s).0;
    let dropped = drops(st.binds, st.around, st.binds.len());
    assert(out + rest =~= dropped + (seq![s] + rest));
    lemma_drops(st.binds, st.around, st.binds.len(), seq![s] + rest);
    lemma_front(s, rest);
}

/// What a block becomes is restored to it.
proof fn lemma_block(st: ArcV, b: Seq<StmtV>, from: nat)
    requires
        plain_block(b),
    ensures
        restored(arc_block(st, b, from).0, 0) == b,
    decreases b, b.len() + 1,
{
    let (out, st1) = arc_stmts(st, b, 0);
    let none = Seq::<StmtV>::empty();
    let n = st1.binds.len();
    let rest = if falls_through(out) {
        drops(st1.binds, from, n)
    } else {
        none
    };
    lemma_drops(st1.binds, from, n, none);
    assert(rest + none =~= rest);
    assert(restored(none, 0) == none);
    assert(restored(rest, 0) == none);
    lemma_stmts(st, b, 0, rest);
    assert(arc_block(st, b, from).0 =~= out + rest);
    assert(b.skip(0) + none =~= b);
}

proof fn lemma_stmts(st: ArcV, b: Seq<StmtV>, i: int, rest: Seq<StmtV>)
    requires
        plain_block(b),
        0 <= i <= b.len(),
        !opens(restored(rest, 0)),
    ensures
        restored(arc_stmts(st, b, i).0 + rest, 0) == b.skip(i) + restored(rest, 0),
        !opens(b.skip(i) + restored(rest, 0)),
    decreases b, b.len() - i,
{
    if i >= b.len() {
        assert(arc_stmts(st, b, i).0 + rest =~= rest);
        assert(b.skip(i) + restored(rest, 0) =~= restored(rest, 0));
    } else {
        let (head, st1) = arc_stmt(st, b[i]);
        let tail = arc_stmts(st1, b, i + 1).0;
        assert(plain(b[i]));
        lemma_stmts(st1, b, i + 1, rest);
        assert(arc_stmts(st, b, i).0 + rest =~= head + (tail + rest));
        lemma_stmt(st, b[i], tail + rest);
        assert(b.skip(i) + restored(rest, 0) =~= seq![b[i]] + (b.skip(i + 1) + restored(rest, 0)));
    }
}

proof fn lemma_arms(st: ArcV, arms: Seq<ArmV>, i: int)
    requires
        plain_arms(arms),
        0 <= i <= arms.len(),
    ensures
        restored_arms(arc_arms(st, arms, i).0, 0) == arms.skip(i),
    decreases arms, arms.len() - i,
{
    let out = arc_arms(st, arms, i).0;
    if i >= arms.len() {
        assert(restored_arms(out, 0) =~= arms.skip(i));
    } else {
        let (head, tmp) = arc_arm(st, arms[i]);
        let st1 = ArcV { tmp, ..st };
        let rest = arc_arms(st1, arms, i + 1).0;
        assert(plain_arm(arms[i]));
        let inner = ArcV { binds: st.binds + arm_bindings(arms[i].pattern), ..st };
        lemma_block(inner, arms[i].body, st.binds.len());
        lemma_arms(st1, arms, i + 1);
        assert(out == seq![head] + rest);
        lemma_shift_arms(head, rest, 0);
        assert(out[0] == head);
        assert(restored_arm(head) == arms[i]);
        assert(restored_arms(out, 1) == arms.skip(i + 1));
        assert(restored_arms(out, 0) == seq![arms[i]] + arms.skip(i + 1));
        assert(arms.skip(i) =~= seq![arms[i]] + arms.skip(i + 1));
    }
}

proof fn lemma_shift_arms(head: ArmV, arms: Seq<ArmV>, i: int)
    requires
        0 <= i,
    ensures
        restored_arms(seq![head] + arms, i + 1) == restored_arms(arms, i),
    decreases arms.len() - i,
{
    if i < arms.len() {
        assert((seq![head] + arms)[i + 1] == arms[i]);
        lemma_shift_arms(head, arms, i + 1);
    }
}

/// Counting references in a function only inserts retains, releases and
/// temporaries: without them it is the function it was. Every use of a variable
/// stands as it stood, and names the binding that it named (see
/// [`law_temporaries_hide_nothing`]).
pub proof fn law_counting_only_inserts(tmp: usize, f: FunctionV)
    requires
        plain_block(f.body),
    ensures
        restored_function(arc_function(tmp, f).0) == f,
{
    let params = param_bindings(f);
    let st = ArcV { binds: params, around: 0, tmp };
    lemma_block(st, f.body, 0);
    lemma_takes(params, params.len(), arc_block(st, f.body, 0).0);
}

/// A temporary hides no binding: where one was bound, each name that a program is
/// written with leads to the variable that it led to before.
pub proof fn law_temporaries_hide_nothing(
    g: Gen,
    n: usize,
    ty: Type,
    v: Val,
    name: Seq<char>,
    k: nat,
)
    requires
        g.vars.len() > 0,
        own_name(name),
    ensures
        find_var(bind_var(g, tmp_name(n), ty, v).vars, name) == find_var(g.vars, name),
        find_hidden(bind_var(g, tmp_name(n), ty, v).vars, name, k) == find_hidden(
            g.vars,
            name,
            k,
        ),
{
    lemma_tmp(n);
    lemma_own(name);
    let vars = bind_var(g, tmp_name(n), ty, v).vars;
    assert(vars.drop_last() =~= g.vars.drop_last());
}

// ----- accepted programs ------------------------------------------------------------------------
proof fn lemma_own(name: Seq<char>)
    requires
        own_name(name),
    ensures
        !synthetic(name),
{
    if name.len() > 0 {
        assert(is_word(name[0]));
    }
}

proof fn lemma_tidy_plain(s: StmtV, looped: bool)
    requires
        tidy(s, looped),
    ensures
        plain(s),
    decreases s,
{
    match s {
        StmtV::Let { name, ty, value, line } => {
            lemma_own(name);
        },
        StmtV::Return { value, line } => {
            if let Some(e) = value {
                if let KindV::Var(x) = e.kind {
                    lemma_own(x);
                }
            }
        },
        StmtV::If { cond, then_block, else_block } => {
            lemma_tidy_plain_block(then_block, looped);
            if let Some(b) = else_block {
                lemma_tidy_plain_block(b, looped);
            }
        },
        StmtV::While { cond, body } => {
            lemma_tidy_plain_block(body, true);
        },
        StmtV::For { var, start, end, body, line } => {
            lemma_tidy_plain_block(body, true);
        },
        StmtV::ForEach { var, iterable, body, line } => {
            lemma_tidy_plain_block(body, true);
        },
        StmtV::Match { scrutinee, arms, line } => {
            assert forall|i: int| 0 <= i < arms.len() implies plain_arm(#[trigger] arms[i]) by {
                assert(tidy_arm(arms[i], looped));
                lemma_tidy_plain_block(arms[i].body, looped);
            }
        },
        _ => {},
    }
}

proof fn lemma_tidy_plain_block(b: Seq<StmtV>, looped: bool)
    requires
        tidy_block(b, looped),
    ensures
        plain_block(b),
    decreases b,
{
    assert forall|i: int| 0 <= i < b.len() implies plain(#[trigger] b[i]) by {
        assert(tidy(b[i], looped));
        lemma_tidy_plain(b[i], looped);
    }
}

/// Counting references only inserts in every function of a program that was
/// accepted.
pub proof fn law_accepted_programs_are_restored(tmp: usize, p: ProgramV)
    requires
        forall|i: int|
            0 <= i < p.functions.len() ==> written_function(#[trigger] p.functions[i]),
        analyzed(fresh_state(), p).2 is Ok,
    ensures
        restored_program(arc_program(tmp, analyzed(fresh_state(), p).0).0) == analyzed(
            fresh_state(),
            p,
        ).0,
{
    let st = State { tables: enter_all(fresh_state().tables, p).0, ..fresh_state() };
    let p1 = analyzed(fresh_state(), p).0;
    lemma_functions_plain(st, p.functions, 0);
    lemma_functions_restored(tmp, p1.functions, 0);
    let out = arc_program(tmp, p1).0;
    assert(restored_program(out).functions =~= p1.functions);
}

proof fn lemma_functions_plain(st: State, fs: Seq<FunctionV>, i: int)
    requires
        0 <= i <= fs.len(),
        !st.env.in_loop,
        forall|k: int| 0 <= k < fs.len() ==> written_function(#[trigger] fs[k]),
        checked_functions(st, fs, i).2 is Ok,
    ensures
        ({
            let out = checked_functions(st, fs, i).0;
            forall|k: int| 0 <= k < out.len() ==> plain_block((#[trigger] out[k]).body)
        }),
    decreases fs.len() - i,
{
    if i < fs.len() {
        assert(written_function(fs[i]));
        law_accepted_functions_are_tidy(st, fs[i]);
        let (f1, st1, r) = crate::typing::checked_function(st, fs[i]);
        lemma_tidy_plain_block(f1.body, false);
        lemma_functions_plain(st1, fs, i + 1);
        let rest = checked_functions(st1, fs, i + 1).0;
        let out = checked_functions(st, fs, i).0;
        assert(out == seq![f1] + rest);
        assert forall|k: int| 0 <= k < out.len() implies plain_block(
            (#[trigger] out[k]).body,
        ) by {
            if k > 0 {
                assert(out[k] == rest[k - 1]);
            }
        }
    }
}

proof fn lemma_functions_restored(tmp: usize, fs: Seq<FunctionV>, i: int)
    requires
        0 <= i <= fs.len(),
        forall|k: int| 0 <= k < fs.len() ==> plain_block((#[trigger] fs[k]).body),
    ensures
        ({
            let out = arc_functions(tmp, fs, i).0;
            &&& out.len() == fs.len() - i
            &&& forall|k: int|
                0 <= k < out.len() ==> restored_function(#[trigger] out[k]) == fs[i + k]
        }),
    decreases fs.len() - i,
{
    if i < fs.len() {
        law_counting_only_inserts(tmp, fs[i]);
        let (f1, tmp1) = arc_function(tmp, fs[i]);
        lemma_functions_restored(tmp1, fs, i + 1);
        let rest = arc_functions(tmp1, fs, i + 1).0;
        let out = arc_functions(tmp, fs, i).0;
        assert(out == seq![f1] + rest);
        assert forall|k: int| 0 <= k < out.len() implies restored_function(#[trigger] out[k])
            == fs[i + k] by {
            if k > 0 {
                assert(out[k] == rest[k - 1]);
                assert(fs[i + k] == fs[(i + 1) + (k - 1)]);
            }
        }
    }
}

// ----- nothing on the heap ----------------------------------------------------------------------
/// Whether a statement binds nothing that is on the heap, leaves no value there
/// behind, and returns from no loop that owns the array it goes over (`held`
/// says whether one is around it).
pub open spec fn heap_free(s: StmtV, held: bool) -> bool
    decreases s,
{
    match s {
        StmtV::Let { name, ty, value, line } => !heap_type(ty),
        StmtV::Expr(e) => !heap_type(e.ty),
        StmtV::Return { value, line } => !held,
        StmtV::If { cond, then_block, else_block } => {
            &&& heap_free_block(then_block, held)
            &&& match else_block {
                Some(b) => heap_free_block(b, held),
                None => true,
            }
        },
        StmtV::While { cond, body } => heap_free_block(body, held),
        StmtV::For { var, start, end, body, line } => heap_free_block(body, held),
        StmtV::ForEach { var, iterable, body, line } => !heap_elem(iterable.ty) && heap_free_block(
            body,
            held || owns_iterable(iterable),
        ),
        StmtV::Match { scrutinee, arms, line } => heap_free_arms(arms, held),
        _ => true,
    }
}

pub open spec fn heap_free_block(b: Seq<StmtV>, held: bool) -> bool
    decreases b,
{
    forall|i: int| 0 <= i < b.len() ==> heap_free(#[trigger] b[i], held)
}

pub open spec fn heap_free_arm(arm: ArmV, held: bool) -> bool
    decreases arm,
{
    light(arm_bindings(arm.pattern), 0) && heap_free_block(arm.body, held)
}

pub open spec fn heap_free_arms(arms: Seq<ArmV>, held: bool) -> bool
    decreases arms,
{
    forall|i: int| 0 <= i < arms.len() ==> heap_free_arm(#[trigger] arms[i], held)
}

/// Whether none of the bindings from position `from` on is on the heap.
pub open spec fn light(binds: Seq<BindingV>, from: nat) -> bool {
    forall|i: int| from <= i < binds.len() ==> !(#[trigger] binds[i]).heap
}

/// Whether no parameter, variable or bare expression of a function is on the
/// heap, and it returns from no loop that owns the array it goes over.
pub open spec fn heap_free_function(f: FunctionV) -> bool {
    light(param_bindings(f), 0) && heap_free_block(f.body, false)
}

/// Where nothing is on the heap, nothing is released.
proof fn lemma_light_drops(binds: Seq<BindingV>, from: nat, n: nat)
    requires
        light(binds, from),
        n <= binds.len(),
    ensures
        drops(binds, from, n) == Seq::<StmtV>::empty(),
    decreases n,
{
    reveal(drops);
    if n > from {
        assert(!binds[n - 1].heap);
        lemma_light_drops(binds, from, (n - 1) as nat);
    }
}

/// Nor is anything retained.
proof fn lemma_light_takes(binds: Seq<BindingV>, n: nat)
    requires
        light(binds, 0),
        n <= binds.len(),
    ensures
        takes(binds, n) == Seq::<StmtV>::empty(),
    decreases n,
{
    reveal(takes);
    if n > 0 {
        assert(!binds[n - 1].heap);
        lemma_light_takes(binds, (n - 1) as nat);
    }
}

/// What is in sight in a heap-free block: nothing on the heap but what loops
/// around it own.
spec fn at_ease(st: ArcV, held: bool) -> bool {
    light(st.binds, st.around) && (!held ==> light(st.binds, 0))
}

/// Bindings that are not on the heap come into sight.
proof fn lemma_light_more(binds: Seq<BindingV>, more: Seq<BindingV>, from: nat)
    requires
        light(binds, from),
        light(more, 0),
    ensures
        light(binds + more, from),
{
    assert forall|i: int| from <= i < (binds + more).len() implies !(#[trigger] (binds
        + more)[i]).heap by {
        if i < binds.len() {
            assert(!binds[i].heap);
        } else {
            assert(!more[i - binds.len()].heap);
        }
    }
}

/// A heap-free statement is left as it is.
proof fn lemma_stmt_left(st: ArcV, s: StmtV, held: bool)
    requires
        heap_free(s, held),
        at_ease(st, held),
    ensures
        ({
            let (out, st1) = arc_stmt(st, s);
            &&& out == seq![s]
            &&& at_ease(st1, held)
            &&& st1.tmp == st.tmp
            &&& st.binds.len() <= st1.binds.len()
            &&& forall|from: nat| light(st.binds, from) ==> #[trigger] light(st1.binds, from)
        }),
    decreases s, 1int,
{
    let (out, st1) = arc_stmt(st, s);
    let n = st.binds.len();
    match s {
        StmtV::Let { name, ty, value, line } => {
            let more = seq![BindingV { name, heap: false }];
            assert(st1.binds =~= st.binds + more);
            assert forall|from: nat| light(st.binds, from) implies #[trigger] light(
                st1.binds,
                from,
            ) by {
                lemma_light_more(st.binds, more, from);
            }
        },
        StmtV::Return { value, line } => {
            assert(!any_owned(st.binds));
        },
        StmtV::Break { line } => {
            lemma_light_drops(st.binds, st.around, n);
            assert(out =~= seq![s]);
        },
        StmtV::Continue { line } => {
            lemma_light_drops(st.binds, st.around, n);
            assert(out =~= seq![s]);
        },
        StmtV::If { cond, then_block, else_block } => {
            lemma_block_left(st, then_block, n, held);
            if let Some(b) = else_block {
                lemma_block_left(st, b, n, held);
            }
        },
        StmtV::While { cond, body } => {
            lemma_block_left(ArcV { around: n, ..st }, body, n, held);
        },
        StmtV::For { var, start, end, body, line } => {
            let inner = inside(st, Seq::empty(), BindingV { name: var, heap: false });
            lemma_light_inside(st, Seq::empty(), BindingV { name: var, heap: false }, held);
            lemma_block_left(inner, body, n, held);
        },
        StmtV::ForEach { var, iterable, body, line } => {
            let more = held_bindings(var, iterable);
            let elem = BindingV { name: var, heap: false };
            let inner = inside(st, more, elem);
            lemma_light_inside(st, more, elem, held || owns_iterable(iterable));
            lemma_block_left(inner, body, n + more.len(), held || owns_iterable(iterable));
        },
        StmtV::Match { scrutinee, arms, line } => {
            lemma_arms_left(st, arms, 0, held);
            assert(arms.skip(0) =~= arms);
        },
        _ => {},
    }
}

/// The state inside a loop whose variable is not on the heap.
proof fn lemma_light_inside(st: ArcV, more: Seq<BindingV>, var: BindingV, held: bool)
    requires
        !held ==> light(st.binds, 0) && more.len() == 0,
        !var.heap,
    ensures
        at_ease(inside(st, more, var), held),
        light(inside(st, more, var).binds, st.binds.len() + more.len()),
{
    let binds = (st.binds + more).push(var);
    assert(binds[(st.binds.len() + more.len()) as int] == var);
    if !held {
        assert forall|i: int| 0 <= i < binds.len() implies !(#[trigger] binds[i]).heap by {
            if i < st.binds.len() {
                assert(binds[i] == st.binds[i]);
            }
        }
    }
}

/// A heap-free block is left as it is.
proof fn lemma_block_left(st: ArcV, b: Seq<StmtV>, from: nat, held: bool)
    requires
        heap_free_block(b, held),
        at_ease(st, held),
        light(st.binds, from),
    ensures
        arc_block(st, b, from) == (b, st.tmp),
    decreases b, b.len() + 1,
{
    lemma_stmts_left(st, b, 0, held);
    let (out, st1) = arc_stmts(st, b, 0);
    assert(b.skip(0) =~= b);
    assert(light(st1.binds, from));
    lemma_light_drops(st1.binds, from, st1.binds.len());
    assert(out + Seq::empty() =~= b);
}

proof fn lemma_stmts_left(st: ArcV, b: Seq<StmtV>, i: int, held: bool)
    requires
        heap_free_block(b, held),
        at_ease(st, held),
        0 <= i <= b.len(),
    ensures
        ({
            let (out, st1) = arc_stmts(st, b, i);
            &&& out == b.skip(i)
            &&& st1.tmp == st.tmp
            &&& forall|from: nat| light(st.binds, from) ==> #[trigger] light(st1.binds, from)
        }),
    decreases b, b.len() - i,
{
    if i >= b.len() {
        assert(arc_stmts(st, b, i).0 =~= b.skip(i));
    } else {
        assert(heap_free(b[i], held));
        lemma_stmt_left(st, b[i], held);
        let st1 = arc_stmt(st, b[i]).1;
        lemma_stmts_left(st1, b, i + 1, held);
        let st2 = arc_stmts(st1, b, i + 1).1;
        assert(seq![b[i]] + b.skip(i + 1) =~= b.skip(i));
        assert forall|from: nat| light(st.binds, from) implies #[trigger] light(
            st2.binds,
            from,
        ) by {
            assert(light(st1.binds, from));
        }
    }
}

proof fn lemma_arms_left(st: ArcV, arms: Seq<ArmV>, i: int, held: bool)
    requires
        heap_free_arms(arms, held),
        at_ease(st, held),
        0 <= i <= arms.len(),
    ensures
        arc_arms(st, arms, i) == (arms.skip(i), st.tmp),
    decreases arms, arms.len() - i,
{
    if i >= arms.len() {
        assert(arc_arms(st, arms, i).0 =~= arms.skip(i));
    } else {
        let arm = arms[i];
        assert(heap_free_arm(arm, held));
        let more = arm_bindings(arm.pattern);
        let inner = ArcV { binds: st.binds + more, ..st };
        lemma_light_more(st.binds, more, st.around);
        if !held {
            lemma_light_more(st.binds, more, 0);
        }
        lemma_light_more(st.binds, more, st.binds.len());
        lemma_block_left(inner, arm.body, st.binds.len(), held);
        lemma_arms_left(st, arms, i + 1, held);
        assert(arc_arm(st, arm) == (arm, st.tmp));
        assert(st == (ArcV { tmp: st.tmp, ..st }));
        assert(seq![arm] + arms.skip(i + 1) =~= arms.skip(i));
    }
}

/// A function with nothing on the heap is left exactly as it is, and takes no
/// temporary.
pub proof fn law_heap_free_functions_are_left_alone(tmp: usize, f: FunctionV)
    requires
        heap_free_function(f),
    ensures
        arc_function(tmp, f) == (f, tmp),
{
    let params = param_bindings(f);
    let st = ArcV { binds: params, around: 0, tmp };
    lemma_light_takes(params, params.len());
    lemma_block_left(st, f.body, 0, false);
    assert(arc_function(tmp, f).0 =~= f);
}

/// So is a program with nothing on the heap.
pub proof fn law_heap_free_programs_are_left_alone(tmp: usize, p: ProgramV)
    requires
        forall|i: int|
            0 <= i < p.functions.len() ==> heap_free_function(#[trigger] p.functions[i]),
    ensures
        arc_program(tmp, p) == (p, tmp),
{
    lemma_functions_left(tmp, p.functions, 0);
    assert(p.functions.skip(0) =~= p.functions);
    assert(arc_program(tmp, p).0 =~= p);
}

proof fn lemma_functions_left(tmp: usize, fs: Seq<FunctionV>, i: int)
    requires
        0 <= i <= fs.len(),
        forall|k: int| 0 <= k < fs.len() ==> heap_free_function(#[trigger] fs[k]),
    ensures
        arc_functions(tmp, fs, i) == (fs.skip(i), tmp),
    decreases fs.len() - i,
{
    if i < fs.len() {
        law_heap_free_functions_are_left_alone(tmp, fs[i]);
        lemma_functions_left(tmp, fs, i + 1);
        assert(seq![fs[i]] + fs.skip(i + 1) =~= fs.skip(i));
    } else {
        assert(arc_functions(tmp, fs, i).0 =~= fs.skip(i));
    }
}

} // verus!
