//! Reference counts balance.
//!
//! A block of counted statements is run on the references that its bindings
//! hold: a fresh heap value arrives with one, an alias with none, `Retain` and
//! `Release` count up and down. A block is balanced when each of its bindings
//! holds nothing any more at its end, when a `return` leaves nothing held but
//! the result, and when `break` and `continue` leave what was held when the
//! loop began. Releasing what holds nothing is a fault.
use vstd::prelude::*;
use crate::acceptance::written_function;
use crate::ast::{ArmV, ExprV, FunctionV, KindV, PatternV, ProgramV, StmtV};
use crate::counting::{
    any_owned, arc_arm, arc_arms, arc_block, arc_function, arc_functions, arc_program, arc_stmt,
    arc_stmts, arm_bindings, counted_name, drops, falls_through, heap_elem, heap_type,
    held_bindings, holder, inside, level, owns_iterable, param_bindings, synthetic, takes, tmp_name,
    ArcV, BindingV,
};
use crate::lexer::is_word;
use crate::naming::{
    bare, lemma_own_unprimed, lemma_primes_tell, own_name, own_names, param_names, pattern_names,
    primes,
};
use crate::text::{dec, lemma_numeral_ends};
use crate::tidy::{law_accepted_functions_are_tidy, tidy, tidy_arm, tidy_block, tidy_function};
use crate::typing::{analyzed, checked_function, checked_functions, enter_all, fresh_state, State};

verus! {

/// A binding, whether it is of a heap type, and the references it holds.
#[verifier::ext_equal]
pub struct Bind {
    pub name: Seq<char>,
    pub heap: bool,
    pub count: int,
}

/// What running statements comes to.
pub enum Outcome {
    /// A reference was released that was not held, or one was left behind.
    Bad,
    /// Control left by return, break or continue.
    Left,
    /// Control falls off the end, with these bindings.
    Falls(Seq<Bind>),
}

/// The binding of that name among the first `n` that `k` others behind it hide.
pub open spec fn find_bind(env: Seq<Bind>, name: Seq<char>, k: nat, n: nat) -> Option<int>
    decreases n,
{
    if n == 0 {
        None
    } else if env[n - 1].name != name {
        find_bind(env, name, k, (n - 1) as nat)
    } else if k == 0 {
        Some(n - 1)
    } else {
        find_bind(env, name, (k - 1) as nat, (n - 1) as nat)
    }
}

pub open spec fn all_zero(env: Seq<Bind>) -> bool {
    forall|k: int| 0 <= k < env.len() ==> (#[trigger] env[k]).count == 0
}

/// Whether nothing is held but by the binding at `k`.
pub open spec fn only(env: Seq<Bind>, k: int) -> bool {
    &&& env[k].count == 1
    &&& forall|j: int| 0 <= j < env.len() && j != k ==> (#[trigger] env[j]).count == 0
}

/// Whether the bindings of `base` hold what they held, and those behind them
/// hold nothing.
pub open spec fn settled(base: Seq<Bind>, env: Seq<Bind>) -> bool {
    &&& base.len() <= env.len()
    &&& env.take(base.len() as int) == base
    &&& forall|k: int| base.len() <= k < env.len() ==> (#[trigger] env[k]).count == 0
}

/// A reference more or less; primes say how many bindings hide the one meant.
pub open spec fn counted(env: Seq<Bind>, name: Seq<char>, by: int) -> Outcome {
    match find_bind(env, bare(name), primes(name), env.len()) {
        None => Outcome::Bad,
        Some(k) => if !env[k].heap || env[k].count + by < 0 {
            Outcome::Bad
        } else {
            Outcome::Falls(env.update(k, Bind { count: env[k].count + by, ..env[k] }))
        },
    }
}

/// A return: the result takes one reference along, and nothing else is held.
pub open spec fn returned(env: Seq<Bind>, value: Option<ExprV>) -> Outcome {
    let fine = match value {
        None => all_zero(env),
        Some(e) => if !heap_type(e.ty) {
            all_zero(env)
        } else {
            match e.kind {
                KindV::Var(x) => match find_bind(env, x, 0, env.len()) {
                    Some(k) => if env[k].heap {
                        only(env, k)
                    } else {
                        all_zero(env)
                    },
                    None => all_zero(env),
                },
                _ => all_zero(env),
            }
        },
    };
    if fine {
        Outcome::Left
    } else {
        Outcome::Bad
    }
}

/// A jump to the end or the next round of a loop that began with `entry`.
pub open spec fn jumped(env: Seq<Bind>, entry: Option<Seq<Bind>>) -> Outcome {
    match entry {
        None => Outcome::Bad,
        Some(base) => if settled(base, env) {
            Outcome::Left
        } else {
            Outcome::Bad
        },
    }
}

/// A binding that arrives with a reference of its own, where it is a heap one.
pub open spec fn arriving(name: Seq<char>, heap: bool) -> Bind {
    Bind {
        name,
        heap,
        count: if heap {
            1
        } else {
            0
        },
    }
}

/// The array that a `for x in xs` loop holds, where it is the loop's own.
pub open spec fn held_binds(var: Seq<char>, iterable: ExprV) -> Seq<Bind> {
    if owns_iterable(iterable) {
        seq![arriving(holder(var), true)]
    } else {
        Seq::empty()
    }
}

/// The bindings of an arm.
pub open spec fn arm_binds(pattern: PatternV) -> Seq<Bind> {
    match pattern {
        PatternV::Wildcard => Seq::empty(),
        PatternV::Variant { name, bindings, types } => Seq::new(
            bindings.len(),
            |i: int| arriving(bindings[i], i < types.len() && types[i].heap()),
        ),
    }
}

/// A statement, run; `entry` is what was held when the innermost loop began.
pub open spec fn step(env: Seq<Bind>, s: StmtV, entry: Option<Seq<Bind>>) -> Outcome
    decreases s, 1nat,
{
    match s {
        StmtV::Let { name, ty, value, line } => Outcome::Falls(
            env.push(
                Bind {
                    name,
                    heap: heap_type(ty),
                    count: if heap_type(ty) && !(value.kind is Var) {
                        1
                    } else {
                        0
                    },
                },
            ),
        ),
        StmtV::Retain(name) => counted(env, name, 1),
        StmtV::Release(name) => counted(env, name, -1),
        // A heap value must be bound to be released.
        StmtV::Expr(e) => if heap_type(e.ty) {
            Outcome::Bad
        } else {
            Outcome::Falls(env)
        },
        StmtV::Return { value, line } => returned(env, value),
        StmtV::Break { line } => jumped(env, entry),
        StmtV::Continue { line } => jumped(env, entry),
        StmtV::If { cond, then_block, else_block } => {
            let a = run_block(env, Seq::empty(), then_block, entry);
            let b = match else_block {
                Some(b) => run_block(env, Seq::empty(), b, entry),
                None => Outcome::Left,
            };
            if a is Bad || b is Bad {
                Outcome::Bad
            } else {
                Outcome::Falls(env)
            }
        },
        StmtV::While { cond, body } => if run_block(env, Seq::empty(), body, Some(env)) is Bad {
            Outcome::Bad
        } else {
            Outcome::Falls(env)
        },
        StmtV::For { var, start, end, body, line } => if run_block(
            env,
            seq![arriving(var, false)],
            body,
            Some(env),
        ) is Bad {
            Outcome::Bad
        } else {
            Outcome::Falls(env)
        },
        // The loop lets go of the array that it holds when it is over.
        StmtV::ForEach { var, iterable, body, line } => if run_block(
            env + held_binds(var, iterable),
            seq![arriving(var, heap_elem(iterable.ty))],
            body,
            Some(env + held_binds(var, iterable)),
        ) is Bad {
            Outcome::Bad
        } else {
            Outcome::Falls(env)
        },
        StmtV::Match { scrutinee, arms, line } => if arms_fine(env, arms, arms.len(), entry) {
            Outcome::Falls(env)
        } else {
            Outcome::Bad
        },
        _ => Outcome::Falls(env),
    }
}

/// A block whose own bindings begin with `first`, run on what `base` holds.
pub open spec fn run_block(
    base: Seq<Bind>,
    first: Seq<Bind>,
    b: Seq<StmtV>,
    entry: Option<Seq<Bind>>,
) -> Outcome
    decreases b, b.len() + 1,
{
    match run(base + first, b, b.len(), entry) {
        Outcome::Falls(env) => if settled(base, env) {
            Outcome::Falls(base)
        } else {
            Outcome::Bad
        },
        other => other,
    }
}

/// The first `n` statements, run; what follows a jump is dead code.
pub open spec fn run(env: Seq<Bind>, b: Seq<StmtV>, n: nat, entry: Option<Seq<Bind>>) -> Outcome
    decreases b, n,
{
    if n == 0 || n > b.len() {
        Outcome::Falls(env)
    } else {
        match run(env, b, (n - 1) as nat, entry) {
            Outcome::Falls(env1) => step(env1, b[n - 1], entry),
            other => other,
        }
    }
}

/// Whether the first `n` arms are balanced.
pub open spec fn arms_fine(
    env: Seq<Bind>,
    arms: Seq<ArmV>,
    n: nat,
    entry: Option<Seq<Bind>>,
) -> bool
    decreases arms, n,
{
    if n == 0 || n > arms.len() {
        true
    } else {
        arms_fine(env, arms, (n - 1) as nat, entry) && arm_fine(env, arms[n - 1], entry)
    }
}

pub open spec fn arm_fine(env: Seq<Bind>, arm: ArmV, entry: Option<Seq<Bind>>) -> bool
    decreases arm, 0nat,
{
    !(run_block(env, arm_binds(arm.pattern), arm.body, entry) is Bad)
}

/// The parameters of a function, its receiver first; they are borrowed.
pub open spec fn param_binds(f: FunctionV) -> Seq<Bind> {
    let params = crate::lowering::all_params(f);
    Seq::new(
        params.len(),
        |i: int| Bind { name: params[i].name, heap: params[i].ty.heap(), count: 0 },
    )
}

/// Whether a function is balanced.
pub open spec fn function_balanced(f: FunctionV) -> bool {
    !(run_block(Seq::empty(), param_binds(f), f.body, None) is Bad)
}

// ----- bindings and what they hold ---------------------------------------------------------------
/// The bindings of the program's own, in order.
spec fn ties(env: Seq<Bind>) -> Seq<BindingV>
    decreases env.len(),
{
    if env.len() == 0 {
        Seq::empty()
    } else {
        let before = ties(env.drop_last());
        if synthetic(env.last().name) {
            before
        } else {
            before.push(BindingV { name: env.last().name, heap: env.last().heap })
        }
    }
}

/// The bindings once the heap ones among the first `n` hold one reference each,
/// synthetic ones aside, and nothing else is held.
spec fn cut(env: Seq<Bind>, n: nat) -> Seq<Bind> {
    Seq::new(
        env.len(),
        |k: int|
            Bind {
                count: if k < n && env[k].heap && !synthetic(env[k].name) {
                    1
                } else {
                    0
                },
                ..env[k]
            },
    )
}

/// Whether heap bindings can be named where others hide them.
spec fn named(binds: Seq<BindingV>) -> bool {
    forall|i: int|
        0 <= i < binds.len() && (#[trigger] binds[i]).heap ==> primes(binds[i].name) == 0
}

/// Between two statements, the bindings in sight hold a reference each, and what
/// was held when the innermost loop began is what is in sight outside of it.
spec fn in_balance(env: Seq<Bind>, st: ArcV, entry: Option<Seq<Bind>>) -> bool {
    &&& env == cut(env, env.len())
    &&& ties(env) == st.binds
    &&& named(st.binds)
    &&& entry matches Some(base) ==> {
        &&& base.len() <= env.len()
        &&& env.take(base.len() as int) == base
        &&& ties(base).len() == st.around
    }
}

// ----- lemmas on sequences --------------------------------------------------------------------
proof fn lemma_run_prefix(
    env: Seq<Bind>,
    a: Seq<StmtV>,
    b: Seq<StmtV>,
    n: nat,
    entry: Option<Seq<Bind>>,
)
    requires
        n <= a.len(),
    ensures
        run(env, a + b, n, entry) == run(env, a, n, entry),
    decreases n,
{
    if n > 0 {
        lemma_run_prefix(env, a, b, (n - 1) as nat, entry);
        assert((a + b)[n - 1] == a[n - 1]);
    }
}

/// Running two stretches is running one after the other.
proof fn lemma_run_concat(
    env: Seq<Bind>,
    a: Seq<StmtV>,
    b: Seq<StmtV>,
    n: nat,
    entry: Option<Seq<Bind>>,
)
    requires
        n <= b.len(),
    ensures
        run(env, a + b, a.len() + n, entry) == (match run(env, a, a.len(), entry) {
            Outcome::Falls(env1) => run(env1, b, n, entry),
            other => other,
        }),
    decreases n,
{
    if n == 0 {
        lemma_run_prefix(env, a, b, a.len(), entry);
    } else {
        lemma_run_concat(env, a, b, (n - 1) as nat, entry);
        assert((a + b)[a.len() + n - 1] == b[n - 1]);
    }
}

proof fn lemma_run_both(env: Seq<Bind>, a: Seq<StmtV>, b: Seq<StmtV>, entry: Option<Seq<Bind>>)
    ensures
        run(env, a + b, (a + b).len(), entry) == (match run(env, a, a.len(), entry) {
            Outcome::Falls(env1) => run(env1, b, b.len(), entry),
            other => other,
        }),
{
    lemma_run_concat(env, a, b, b.len(), entry);
    assert((a + b).len() == a.len() + b.len());
}

proof fn lemma_run_one(env: Seq<Bind>, s: StmtV, entry: Option<Seq<Bind>>)
    ensures
        run(env, seq![s], 1, entry) == step(env, s, entry),
{
    assert(run(env, seq![s], 0, entry) == Outcome::Falls(env));
    assert(seq![s][0] == s);
}

/// Statements that end in a jump never fall off their end.
proof fn lemma_jump_leaves(env: Seq<Bind>, out: Seq<StmtV>, entry: Option<Seq<Bind>>)
    requires
        !falls_through(out),
    ensures
        !(run(env, out, out.len(), entry) is Falls),
{
    let last = out[out.len() - 1];
    assert(last == out.last());
    if let Outcome::Falls(env1) = run(env, out, (out.len() - 1) as nat, entry) {
        assert(!(step(env1, last, entry) is Falls));
    }
}

/// The innermost binding is found by its bare name.
proof fn lemma_find_last(env: Seq<Bind>, b: Bind)
    ensures
        find_bind(env.push(b), b.name, 0, env.push(b).len()) == Some(env.len() as int),
{
    assert(env.push(b)[env.len() as int] == b);
}

proof fn lemma_find(env: Seq<Bind>, name: Seq<char>, k: nat, n: nat)
    requires
        n <= env.len(),
    ensures
        find_bind(env, name, k, n) matches Some(i) ==> 0 <= i < n && env[i].name == name,
    decreases n,
{
    if n > 0 {
        if env[n - 1].name != name {
            lemma_find(env, name, k, (n - 1) as nat);
        } else if k > 0 {
            lemma_find(env, name, (k - 1) as nat, (n - 1) as nat);
        }
    }
}

proof fn lemma_ties_push(env: Seq<Bind>, b: Bind)
    ensures
        ties(env.push(b)) == (if synthetic(b.name) {
            ties(env)
        } else {
            ties(env).push(BindingV { name: b.name, heap: b.heap })
        }),
{
    assert(env.push(b).drop_last() =~= env);
}

proof fn lemma_ties_concat(a: Seq<Bind>, b: Seq<Bind>)
    ensures
        ties(a + b) == ties(a) + ties(b),
    decreases b.len(),
{
    if b.len() == 0 {
        assert(a + b =~= a);
        assert(ties(a) + ties(b) =~= ties(a));
    } else {
        let less = b.drop_last();
        lemma_ties_concat(a, less);
        assert(a + b =~= (a + less).push(b.last()));
        assert(b =~= less.push(b.last()));
        lemma_ties_push(a + less, b.last());
        lemma_ties_push(less, b.last());
        let last = BindingV { name: b.last().name, heap: b.last().heap };
        assert(ties(a) + ties(less).push(last) =~= (ties(a) + ties(less)).push(last));
    }
}

/// The bindings in sight before position `n`.
proof fn lemma_ties_take(env: Seq<Bind>, n: int)
    requires
        0 <= n <= env.len(),
    ensures
        ties(env.take(n)).len() <= ties(env).len(),
        ties(env.take(n)) == ties(env).take(ties(env.take(n)).len() as int),
{
    let a = env.take(n);
    let b = env.skip(n);
    assert(env =~= a + b);
    lemma_ties_concat(a, b);
    assert(ties(a) =~= (ties(a) + ties(b)).take(ties(a).len() as int));
}

/// Bindings of which each is in sight.
proof fn lemma_ties_all(env: Seq<Bind>, binds: Seq<BindingV>)
    requires
        env.len() == binds.len(),
        forall|k: int|
            0 <= k < env.len() ==> !synthetic((#[trigger] env[k]).name) && binds[k] == (BindingV {
                name: env[k].name,
                heap: env[k].heap,
            }),
    ensures
        ties(env) == binds,
    decreases env.len(),
{
    if env.len() == 0 {
        assert(ties(env) =~= binds);
    } else {
        let less = env.drop_last();
        assert forall|k: int| 0 <= k < less.len() implies !synthetic((#[trigger] less[k]).name)
            && binds.drop_last()[k] == (BindingV { name: less[k].name, heap: less[k].heap }) by {
            assert(less[k] == env[k]);
        }
        lemma_ties_all(less, binds.drop_last());
        assert(env[env.len() - 1] == env.last());
        assert(binds =~= binds.drop_last().push(binds.last()));
    }
}

/// Counts are no matter of names.
proof fn lemma_ties_cut(env: Seq<Bind>, n: nat)
    ensures
        ties(cut(env, n)) == ties(env),
    decreases env.len(),
{
    if env.len() > 0 {
        lemma_ties_cut(env.drop_last(), n);
        assert(cut(env, n).drop_last() =~= cut(env.drop_last(), n));
    }
}

/// A binding that others hide is found by the number of them.
proof fn lemma_find_level(env: Seq<Bind>, i: int, n: nat)
    requires
        0 <= i < n <= env.len(),
        !synthetic(env[i].name),
    ensures
        ({
            let name = env[i].name;
            let all = level(ties(env.take(n as int)), name);
            let upto = level(ties(env.take(i + 1)), name);
            upto <= all && find_bind(env, name, (all - upto) as nat, n) == Some(i)
        }),
    decreases n,
{
    let name = env[i].name;
    if i < n - 1 {
        lemma_find_level(env, i, (n - 1) as nat);
        let less = env.take(n - 1);
        let b = env[n - 1];
        assert(env.take(n as int) =~= less.push(b));
        lemma_ties_push(less, b);
        let tie = BindingV { name: b.name, heap: b.heap };
        assert(ties(less).push(tie).drop_last() =~= ties(less));
    }
}

// ----- releasing -----------------------------------------------------------------------------
/// The name that a heap binding is counted by leads to it; bindings behind it
/// may be synthetic ones.
proof fn lemma_counted(env: Seq<Bind>, cur: Seq<Bind>, n: nat, tail: Seq<Bind>, i: int)
    requires
        named(ties(env)),
        cur == cut(env, n) + tail,
        forall|k: int| 0 <= k < tail.len() ==> synthetic((#[trigger] tail[k]).name),
        0 <= i < env.len(),
        env[i].heap,
        !synthetic(env[i].name),
    ensures
        ({
            let at = ties(env.take(i)).len() as int;
            let name = counted_name(ties(env), at);
            &&& 0 <= at < ties(env).len()
            &&& ties(env)[at] == (BindingV { name: env[i].name, heap: true })
            &&& ties(env.take(i + 1)).len() == at + 1
            &&& find_bind(cur, bare(name), primes(name), cur.len()) == Some(i)
        }),
{
    let binds = ties(env);
    let at = ties(env.take(i)).len() as int;
    let own = env[i].name;
    assert(env.take(i + 1) =~= env.take(i).push(env[i]));
    lemma_ties_push(env.take(i), env[i]);
    lemma_ties_take(env, i + 1);
    let upto = ties(env.take(i + 1));
    assert(upto.len() == at + 1);
    assert(upto[at] == binds[at]);
    lemma_ties_cut(env, n);
    lemma_ties_concat(cut(env, n), tail);
    lemma_tail_ties(tail);
    assert(binds + Seq::empty() =~= binds);
    assert(cur.take(cur.len() as int) =~= cur);
    assert(cur.take(i + 1) =~= cut(env.take(i + 1), n)) by {
        assert forall|k: int| 0 <= k < i + 1 implies cur[k] == cut(env.take(i + 1), n)[k] by {
            assert(env.take(i + 1)[k] == env[k]);
        }
    }
    lemma_ties_cut(env.take(i + 1), n);
    assert(cur[i].name == own);
    lemma_find_level(cur, i, cur.len());
    reveal(counted_name);
    lemma_primes_tell(own, (level(binds, own) - level(upto, own)) as nat);
}

/// Synthetic bindings are none of the program's.
proof fn lemma_tail_ties(tail: Seq<Bind>)
    requires
        forall|k: int| 0 <= k < tail.len() ==> synthetic((#[trigger] tail[k]).name),
    ensures
        ties(tail) == Seq::<BindingV>::empty(),
    decreases tail.len(),
{
    if tail.len() > 0 {
        let less = tail.drop_last();
        assert forall|k: int| 0 <= k < less.len() implies synthetic((#[trigger] less[k]).name) by {
            assert(less[k] == tail[k]);
        }
        lemma_tail_ties(less);
        assert(tail[tail.len() - 1] == tail.last());
    }
}

/// Releasing the heap bindings from position `n` on takes the reference of
/// each, the last one first. Bindings behind them that are synthetic stay as
/// they are.
proof fn lemma_release_from(
    env: Seq<Bind>,
    n: nat,
    m: nat,
    tail: Seq<Bind>,
    entry: Option<Seq<Bind>>,
)
    requires
        n <= m <= env.len(),
        named(ties(env)),
        forall|k: int| 0 <= k < tail.len() ==> synthetic((#[trigger] tail[k]).name),
    ensures
        ({
            let from = ties(env.take(n as int)).len();
            let upto = ties(env.take(m as int)).len();
            let out = drops(ties(env), from, upto);
            &&& from <= upto
            &&& run(cut(env, m) + tail, out, out.len(), entry) == Outcome::Falls(
                cut(env, n) + tail,
            )
        }),
    decreases m - n,
{
    reveal(drops);
    let binds = ties(env);
    let from = ties(env.take(n as int)).len();
    let upto = ties(env.take(m as int)).len();
    let out = drops(binds, from, upto);
    if n == m {
        assert(out =~= Seq::empty());
    } else {
        let k = m - 1;
        let at = ties(env.take(k)).len();
        lemma_release_from(env, n, k as nat, tail, entry);
        assert(env.take(m as int) =~= env.take(k).push(env[k]));
        lemma_ties_push(env.take(k), env[k]);
        lemma_ties_take(env, m as int);
        let rest = drops(binds, from, at);
        let cur = cut(env, m) + tail;
        let next = cut(env, k as nat) + tail;
        if env[k].heap && !synthetic(env[k].name) {
            lemma_counted(env, cur, m, tail, k);
            let drop = StmtV::Release(counted_name(binds, at as int));
            let one = seq![drop];
            assert(out == one + rest);
            lemma_run_one(cur, drop, entry);
            let after = cur.update(k, Bind { count: 0, ..cur[k] });
            assert(step(cur, drop, entry) == Outcome::Falls(after));
            assert(after =~= next);
            lemma_run_both(cur, one, rest, entry);
        } else {
            assert(cur =~= next);
            if !synthetic(env[k].name) {
                assert(ties(env.take(m as int))[at as int] == binds[at as int]);
            }
        }
    }
}

/// Releasing what the bindings behind `base` hold settles them.
proof fn lemma_settle(env: Seq<Bind>, base: Seq<Bind>, entry: Option<Seq<Bind>>)
    requires
        env == cut(env, env.len()),
        named(ties(env)),
        base.len() <= env.len(),
        env.take(base.len() as int) == base,
    ensures
        ({
            let out = drops(ties(env), ties(base).len(), ties(env).len());
            run(env, out, out.len(), entry) == Outcome::Falls(cut(env, base.len()))
        }),
        settled(base, cut(env, base.len())),
{
    let none = Seq::<Bind>::empty();
    let done = cut(env, base.len());
    assert(env.take(env.len() as int) =~= env);
    lemma_release_from(env, base.len(), env.len(), none, entry);
    assert(env + none =~= env);
    assert(done + none =~= done);
    assert(done.take(base.len() as int) =~= base) by {
        assert forall|k: int| 0 <= k < base.len() implies done[k] == base[k] by {
            assert(env.take(base.len() as int)[k] == env[k]);
            assert(env[k] == cut(env, env.len())[k]);
        }
    }
}

/// Everything in sight, released.
proof fn lemma_release_owned(
    env: Seq<Bind>,
    st: ArcV,
    entry: Option<Seq<Bind>>,
    tail: Seq<Bind>,
)
    requires
        in_balance(env, st, entry),
        forall|k: int| 0 <= k < tail.len() ==> synthetic((#[trigger] tail[k]).name),
    ensures
        ({
            let out = drops(st.binds, 0, st.binds.len());
            run(env + tail, out, out.len(), entry) == Outcome::Falls(cut(env, 0) + tail)
        }),
        all_zero(cut(env, 0)),
{
    assert(env.take(env.len() as int) =~= env);
    assert(env.take(0) =~= Seq::empty());
    assert(ties(env.take(0)).len() == 0);
    lemma_release_from(env, 0, env.len(), tail, entry);
}

// ----- statements ------------------------------------------------------------------------------
/// Temporaries are synthetic, and nothing hides one.
proof fn lemma_tmp_synthetic(n: usize)
    ensures
        synthetic(tmp_name(n)),
        primes(tmp_name(n)) == 0,
        bare(tmp_name(n)) == tmp_name(n),
{
    reveal_strlit("$arc");
    assert("$arc"@.len() == 4);
    assert(tmp_name(n)[0] == "$arc"@[0]);
    lemma_numeral_ends(n as nat);
    assert(tmp_name(n).last() == dec(n as nat).last());
}

/// The program's own names are not synthetic, and have no primes.
proof fn lemma_own(name: Seq<char>)
    requires
        own_name(name),
    ensures
        !synthetic(name),
        primes(name) == 0,
        bare(name) == name,
{
    lemma_own_unprimed(name);
    lemma_primes_tell(name, 0);
    if name.len() > 0 {
        assert(is_word(name[0]));
    }
}

/// Bindings that come into sight, each with a reference.
proof fn lemma_add(env: Seq<Bind>, st: ArcV, entry: Option<Seq<Bind>>, more: Seq<Bind>)
    requires
        in_balance(env, st, entry),
        more == cut(more, more.len()),
        named(ties(more)),
    ensures
        in_balance(env + more, ArcV { binds: st.binds + ties(more), ..st }, entry),
{
    let all = env + more;
    let binds = st.binds + ties(more);
    lemma_ties_concat(env, more);
    assert(all =~= cut(all, all.len())) by {
        assert forall|k: int| 0 <= k < all.len() implies all[k] == cut(all, all.len())[k] by {
            if k < env.len() {
                assert(env[k] == cut(env, env.len())[k]);
            } else {
                assert(more[k - env.len()] == cut(more, more.len())[k - env.len()]);
            }
        }
    }
    assert forall|i: int| 0 <= i < binds.len() && (#[trigger] binds[i]).heap implies primes(
        binds[i].name,
    ) == 0 by {
        if i < st.binds.len() {
            assert(binds[i] == st.binds[i]);
        } else {
            assert(binds[i] == ties(more)[i - st.binds.len()]);
        }
    }
    if let Some(base) = entry {
        assert(all.take(base.len() as int) =~= env.take(base.len() as int));
    }
}

/// A binding of the program's own, added.
proof fn lemma_add_bind(
    env: Seq<Bind>,
    st: ArcV,
    entry: Option<Seq<Bind>>,
    name: Seq<char>,
    heap: bool,
)
    requires
        in_balance(env, st, entry),
        own_name(name),
    ensures
        in_balance(
            env.push(arriving(name, heap)),
            ArcV { binds: st.binds.push(BindingV { name, heap }), ..st },
            entry,
        ),
{
    let more = seq![arriving(name, heap)];
    let tie = seq![BindingV { name, heap }];
    lemma_own(name);
    lemma_ties_all(more, tie);
    assert(more =~= cut(more, more.len()));
    lemma_add(env, st, entry, more);
    assert(env + more =~= env.push(arriving(name, heap)));
    assert(st.binds + tie =~= st.binds.push(BindingV { name, heap }));
}

/// What a statement may come to.
spec fn stays(env: Seq<Bind>, out: Outcome, st: ArcV, entry: Option<Seq<Bind>>) -> bool {
    match out {
        Outcome::Bad => false,
        Outcome::Left => true,
        Outcome::Falls(env1) => {
            &&& in_balance(env1, st, entry)
            &&& env.len() <= env1.len()
            &&& env1.take(env.len() as int) == env
        },
    }
}

proof fn lemma_let(env: Seq<Bind>, st: ArcV, s: StmtV, entry: Option<Seq<Bind>>, looped: bool)
    requires
        in_balance(env, st, entry),
        tidy(s, looped),
        s is Let,
    ensures
        stays(
            env,
            run(env, arc_stmt(st, s).0, arc_stmt(st, s).0.len(), entry),
            arc_stmt(st, s).1,
            entry,
        ),
{
    if let StmtV::Let { name, ty, value, line } = s {
        let out = arc_stmt(st, s).0;
        let heap = heap_type(ty);
        lemma_own(name);
        lemma_add_bind(env, st, entry, name, heap);
        let more = env.push(arriving(name, heap));
        assert(more.take(env.len() as int) =~= env);
        if heap && value.kind is Var {
            let none = Bind { name, heap, count: 0 };
            let half = env.push(none);
            assert(out =~= seq![s] + seq![StmtV::Retain(name)]);
            lemma_run_both(env, seq![s], seq![StmtV::Retain(name)], entry);
            lemma_run_one(env, s, entry);
            lemma_run_one(half, StmtV::Retain(name), entry);
            lemma_find_last(env, none);
            assert(half.update(env.len() as int, arriving(name, heap)) =~= more);
        } else {
            assert(out =~= seq![s]);
            lemma_run_one(env, s, entry);
        }
    }
}

proof fn lemma_bare(env: Seq<Bind>, st: ArcV, s: StmtV, entry: Option<Seq<Bind>>)
    requires
        in_balance(env, st, entry),
        s is Expr,
    ensures
        stays(
            env,
            run(env, arc_stmt(st, s).0, arc_stmt(st, s).0.len(), entry),
            arc_stmt(st, s).1,
            entry,
        ),
{
    if let StmtV::Expr(e) = s {
        let out = arc_stmt(st, s).0;
        if heap_type(e.ty) {
            let name = tmp_name(st.tmp);
            let bind = StmtV::Let { name, ty: e.ty, value: e, line: e.span.line };
            let drop = StmtV::Release(name);
            lemma_tmp_synthetic(st.tmp);
            let one = Bind { name, heap: true, count: 1 };
            let dead = Bind { name, heap: true, count: 0 };
            let held = env.push(one);
            let kept = if e.kind is Var {
                seq![bind] + seq![StmtV::Retain(name)]
            } else {
                seq![bind]
            };
            assert(out =~= kept + seq![drop]);
            assert(run(env, kept, kept.len(), entry) == Outcome::Falls(held)) by {
                lemma_run_one(env, bind, entry);
                if e.kind is Var {
                    let half = env.push(dead);
                    lemma_run_both(env, seq![bind], seq![StmtV::Retain(name)], entry);
                    lemma_run_one(half, StmtV::Retain(name), entry);
                    lemma_find_last(env, dead);
                    assert(half.update(env.len() as int, one) =~= held);
                }
            }
            lemma_run_both(env, kept, seq![drop], entry);
            lemma_run_one(held, drop, entry);
            lemma_find_last(env, one);
            assert(held.update(env.len() as int, dead) =~= env.push(dead));
            let tail = seq![dead];
            lemma_tail_ties(tail);
            assert(tail =~= cut(tail, 1));
            lemma_add(env, st, entry, tail);
            assert(env + tail =~= env.push(dead));
            assert(st.binds + ties(tail) =~= st.binds);
            assert(env.push(dead).take(env.len() as int) =~= env);
        } else {
            assert(out =~= seq![s]);
            lemma_run_one(env, s, entry);
            assert(env.take(env.len() as int) =~= env);
        }
    }
}

/// Where nothing is owned, nothing of the program's own is on the heap.
proof fn lemma_no_heap(env: Seq<Bind>, k: int)
    requires
        0 <= k < env.len(),
        !any_owned(ties(env)),
    ensures
        !(env[k].heap && !synthetic(env[k].name)),
{
    if !synthetic(env[k].name) {
        let at = ties(env.take(k)).len() as int;
        assert(env.take(k + 1) =~= env.take(k).push(env[k]));
        lemma_ties_push(env.take(k), env[k]);
        lemma_ties_take(env, k + 1);
        assert(ties(env.take(k + 1))[at] == ties(env)[at]);
        assert(!ties(env)[at].heap);
    }
}

proof fn lemma_return(env: Seq<Bind>, st: ArcV, s: StmtV, entry: Option<Seq<Bind>>, looped: bool)
    requires
        in_balance(env, st, entry),
        tidy(s, looped),
        s is Return,
    ensures
        run(env, arc_stmt(st, s).0, arc_stmt(st, s).0.len(), entry) is Left,
{
    if let StmtV::Return { value, line } = s {
        let out = arc_stmt(st, s).0;
        let none = Seq::<Bind>::empty();
        let dropped = drops(st.binds, 0, st.binds.len());
        let zero = cut(env, 0);
        if !any_owned(st.binds) {
            assert(out =~= seq![s]);
            lemma_run_one(env, s, entry);
            assert forall|k: int| 0 <= k < env.len() implies (#[trigger] env[k]).count == 0 by {
                lemma_no_heap(env, k);
                assert(env[k] == cut(env, env.len())[k]);
            }
            if let Some(e) = value {
                if let KindV::Var(x) = e.kind {
                    lemma_own(x);
                    lemma_find(env, x, 0, env.len());
                    if let Some(k) = find_bind(env, x, 0, env.len()) {
                        lemma_no_heap(env, k);
                    }
                }
            }
        } else {
            match value {
                None => {
                    lemma_release_owned(env, st, entry, none);
                    assert(env + none =~= env);
                    assert(zero + none =~= zero);
                    assert(out =~= dropped + seq![s]);
                    lemma_run_both(env, dropped, seq![s], entry);
                    lemma_run_one(zero, s, entry);
                },
                Some(e) => {
                    lemma_return_value(env, st, e, line, entry);
                },
            }
        }
    }
}

/// The result is bound, everything else is released, and the result returned.
proof fn lemma_return_value(
    env: Seq<Bind>,
    st: ArcV,
    e: ExprV,
    line: usize,
    entry: Option<Seq<Bind>>,
)
    requires
        in_balance(env, st, entry),
        any_owned(st.binds),
    ensures
        ({
            let out = arc_stmt(st, StmtV::Return { value: Some(e), line }).0;
            run(env, out, out.len(), entry) is Left
        }),
{
    let out = arc_stmt(st, StmtV::Return { value: Some(e), line }).0;
    let dropped = drops(st.binds, 0, st.binds.len());
    let zero = cut(env, 0);
    let name = tmp_name(st.tmp);
    let heap = heap_type(e.ty);
    lemma_tmp_synthetic(st.tmp);
    let bind = StmtV::Let { name, ty: e.ty, value: e, line };
    let b = arriving(name, heap);
    let result = ExprV { kind: KindV::Var(name), span: crate::diag::Span::of_line(line), ty: e.ty };
    let last = StmtV::Return { value: Some(result), line };
    let bound = if heap && e.kind is Var {
        seq![bind, StmtV::Retain(name)]
    } else {
        seq![bind]
    };
    assert(out =~= (bound + dropped) + seq![last]);
    assert(run(env, bound, bound.len(), entry) == Outcome::Falls(env.push(b))) by {
        lemma_run_one(env, bind, entry);
        if heap && e.kind is Var {
            let none = Bind { name, heap, count: 0 };
            let half = env.push(none);
            assert(bound =~= seq![bind] + seq![StmtV::Retain(name)]);
            lemma_run_both(env, seq![bind], seq![StmtV::Retain(name)], entry);
            lemma_run_one(half, StmtV::Retain(name), entry);
            lemma_find_last(env, none);
            assert(half.update(env.len() as int, b) =~= env.push(b));
        }
    }
    let tail = seq![b];
    assert(env.push(b) =~= env + tail);
    lemma_release_owned(env, st, entry, tail);
    lemma_run_both(env, bound, dropped, entry);
    lemma_run_both(env, bound + dropped, seq![last], entry);
    let end = zero + tail;
    lemma_run_one(end, last, entry);
    assert(end =~= zero.push(b));
    lemma_find_last(zero, b);
    assert(end[env.len() as int] == b);
    assert forall|j: int| 0 <= j < end.len() && j != env.len() implies (
    #[trigger] end[j]).count == 0 by {
        assert(end[j] == zero[j]);
    }
}

proof fn lemma_jump(env: Seq<Bind>, st: ArcV, s: StmtV, entry: Option<Seq<Bind>>)
    requires
        in_balance(env, st, entry),
        entry is Some,
        s is Break || s is Continue,
    ensures
        run(env, arc_stmt(st, s).0, arc_stmt(st, s).0.len(), entry) is Left,
{
    let out = arc_stmt(st, s).0;
    let base = entry->0;
    let dropped = drops(st.binds, st.around, st.binds.len());
    assert(out =~= dropped + seq![s]);
    lemma_settle(env, base, entry);
    lemma_run_both(env, dropped, seq![s], entry);
    lemma_run_one(cut(env, base.len()), s, entry);
}

/// A statement keeps the balance.
proof fn lemma_stmt(env: Seq<Bind>, st: ArcV, s: StmtV, entry: Option<Seq<Bind>>, looped: bool)
    requires
        in_balance(env, st, entry),
        tidy(s, looped),
        looped ==> entry is Some,
    ensures
        stays(
            env,
            run(env, arc_stmt(st, s).0, arc_stmt(st, s).0.len(), entry),
            arc_stmt(st, s).1,
            entry,
        ),
    decreases s, 1nat,
{
    let (out, st1) = arc_stmt(st, s);
    let none = Seq::<Bind>::empty();
    assert(env.take(env.len() as int) =~= env);
    match s {
        StmtV::Let { name, ty, value, line } => {
            lemma_let(env, st, s, entry, looped);
        },
        StmtV::Expr(e) => {
            lemma_bare(env, st, s, entry);
        },
        StmtV::Return { value, line } => {
            lemma_return(env, st, s, entry, looped);
        },
        StmtV::Break { line } => {
            lemma_jump(env, st, s, entry);
        },
        StmtV::Continue { line } => {
            lemma_jump(env, st, s, entry);
        },
        StmtV::If { cond, then_block, else_block } => {
            assert(env + none =~= env);
            lemma_block(env, none, st, then_block, entry, looped);
            let tmp1 = arc_block(st, then_block, st.binds.len()).1;
            if let Some(b) = else_block {
                lemma_block(env, none, ArcV { tmp: tmp1, ..st }, b, entry, looped);
            }
            assert(out =~= seq![out[0]]);
            lemma_run_one(env, out[0], entry);
        },
        StmtV::While { cond, body } => {
            assert(env + none =~= env);
            let inner = ArcV { around: st.binds.len(), ..st };
            lemma_block(env, none, inner, body, Some(env), true);
            assert(out =~= seq![out[0]]);
            lemma_run_one(env, out[0], entry);
        },
        StmtV::For { var, start, end, body, line } => {
            let first = seq![arriving(var, false)];
            let inner = ArcV { around: st.binds.len(), ..st };
            assert(st.binds + Seq::empty() =~= st.binds);
            lemma_add_bind(env, inner, Some(env), var, false);
            assert(env + first =~= env.push(arriving(var, false)));
            let counter = BindingV { name: var, heap: false };
            lemma_block(env, first, inside(st, Seq::empty(), counter), body, Some(env), true);
            assert(out =~= seq![out[0]]);
            lemma_run_one(env, out[0], entry);
        },
        StmtV::ForEach { var, iterable, body, line } => {
            lemma_foreach(env, st, s, entry);
            let heap = heap_elem(iterable.ty);
            let first = seq![arriving(var, heap)];
            let around = env + held_binds(var, iterable);
            let held = held_bindings(var, iterable);
            let elem = BindingV { name: var, heap };
            lemma_block(around, first, inside(st, held, elem), body, Some(around), true);
            assert(out =~= seq![out[0]]);
            lemma_run_one(env, out[0], entry);
        },
        StmtV::Match { scrutinee, arms, line } => {
            lemma_arms(env, st, arms, 0, entry, looped);
            assert(out =~= seq![out[0]]);
            lemma_run_one(env, out[0], entry);
            let arms1 = arc_arms(st, arms, 0).0;
            lemma_all_arms(env, arms1, arms1.len(), entry);
        },
        _ => {
            assert(out =~= seq![s]);
            lemma_run_one(env, s, entry);
        },
    }
}

/// The array that a loop holds, and its variable.
proof fn lemma_foreach(env: Seq<Bind>, st: ArcV, s: StmtV, entry: Option<Seq<Bind>>)
    requires
        in_balance(env, st, entry),
        s matches StmtV::ForEach { var, iterable, body, line } && own_name(var),
    ensures
        s matches StmtV::ForEach { var, iterable, body, line } ==> {
            let around = env + held_binds(var, iterable);
            let elem = BindingV { name: var, heap: heap_elem(iterable.ty) };
            let st1 = inside(st, held_bindings(var, iterable), elem);
            &&& in_balance(around + seq![arriving(var, elem.heap)], st1, Some(around))
            &&& ties(around).len() == st1.around
        },
{
    if let StmtV::ForEach { var, iterable, body, line } = s {
        let more = held_binds(var, iterable);
        let held = held_bindings(var, iterable);
        let around = env + more;
        let heap = heap_elem(iterable.ty);
        lemma_holder(var);
        lemma_ties_all(more, held);
        assert(more =~= cut(more, more.len()));
        lemma_add(env, st, entry, more);
        let mid = ArcV { binds: st.binds + held, around: st.binds.len() + held.len(), ..st };
        assert(around.take(around.len() as int) =~= around);
        assert(in_balance(around, mid, Some(around)));
        lemma_add_bind(around, mid, Some(around), var, heap);
        assert(around + seq![arriving(var, heap)] =~= around.push(arriving(var, heap)));
    }
}

/// What a loop's array is held under is not synthetic, and has no primes.
proof fn lemma_holder(var: Seq<char>)
    requires
        own_name(var),
    ensures
        !synthetic(holder(var)),
        primes(holder(var)) == 0,
{
    reveal_strlit("in ");
    assert("in "@.len() == 3);
    assert("in "@[2] == ' ');
    assert(holder(var)[0] == "in "@[0]);
    if var.len() > 0 {
        assert(holder(var).last() == var[var.len() - 1]);
        assert(is_word(var[var.len() - 1]));
    } else {
        assert(holder(var).last() == "in "@[2]);
    }
}

/// A block comes back to where it began, or leaves.
proof fn lemma_block(
    env: Seq<Bind>,
    first: Seq<Bind>,
    st: ArcV,
    b: Seq<StmtV>,
    entry: Option<Seq<Bind>>,
    looped: bool,
)
    requires
        in_balance(env + first, st, entry),
        tidy_block(b, looped),
        looped ==> entry is Some,
    ensures
        !(run_block(env, first, arc_block(st, b, ties(env).len()).0, entry) is Bad),
    decreases b, b.len() + 1,
{
    let all = env + first;
    lemma_stmts(all, st, b, 0, entry, looped);
    let (out, st1) = arc_stmts(st, b, 0);
    let dropped = drops(st1.binds, ties(env).len(), st1.binds.len());
    match run(all, out, out.len(), entry) {
        Outcome::Falls(env1) => {
            if !falls_through(out) {
                lemma_jump_leaves(all, out, entry);
            }
            assert(env1.take(env.len() as int) =~= env) by {
                assert forall|k: int| 0 <= k < env.len() implies env1[k] == env[k] by {
                    assert(env1.take(all.len() as int)[k] == env1[k]);
                    assert(all[k] == env[k]);
                }
            }
            lemma_settle(env1, env, entry);
            lemma_run_both(all, out, dropped, entry);
        },
        Outcome::Left => {
            if falls_through(out) {
                lemma_run_both(all, out, dropped, entry);
            }
        },
        Outcome::Bad => {},
    }
}

/// Statements keep the balance, until one of them leaves.
proof fn lemma_stmts(
    env: Seq<Bind>,
    st: ArcV,
    b: Seq<StmtV>,
    i: int,
    entry: Option<Seq<Bind>>,
    looped: bool,
)
    requires
        in_balance(env, st, entry),
        tidy_block(b, looped),
        looped ==> entry is Some,
        0 <= i,
    ensures
        ({
            let (out, st1) = arc_stmts(st, b, i);
            stays(env, run(env, out, out.len(), entry), st1, entry)
        }),
    decreases b, b.len() - i,
{
    if i >= b.len() {
        assert(env.take(env.len() as int) =~= env);
        assert(run(env, arc_stmts(st, b, i).0, 0, entry) == Outcome::Falls(env));
    } else {
        let (head, st1) = arc_stmt(st, b[i]);
        let (rest, st2) = arc_stmts(st1, b, i + 1);
        assert(arc_stmts(st, b, i).0 == head + rest);
        assert(arc_stmts(st, b, i).1 == st2);
        assert(tidy(b[i], looped));
        lemma_stmt(env, st, b[i], entry, looped);
        lemma_run_both(env, head, rest, entry);
        let step1 = run(env, head, head.len(), entry);
        if let Outcome::Falls(env1) = step1 {
            lemma_stmts(env1, st1, b, i + 1, entry, looped);
            if let Outcome::Falls(env2) = run(env1, rest, rest.len(), entry) {
                assert(env2.take(env.len() as int) =~= env) by {
                    assert forall|k: int| 0 <= k < env.len() implies env2[k] == env[k] by {
                        assert(env2.take(env1.len() as int)[k] == env2[k]);
                        assert(env1.take(env.len() as int)[k] == env1[k]);
                    }
                }
            }
        }
    }
}

/// The bindings of an arm.
proof fn lemma_arm_binds(pattern: PatternV)
    requires
        own_names(pattern_names(pattern)),
    ensures
        ties(arm_binds(pattern)) == arm_bindings(pattern),
        named(arm_bindings(pattern)),
        arm_binds(pattern) == cut(arm_binds(pattern), arm_binds(pattern).len()),
{
    let first = arm_binds(pattern);
    let binds = arm_bindings(pattern);
    let names = pattern_names(pattern);
    assert forall|k: int| 0 <= k < first.len() implies !synthetic((#[trigger] first[k]).name)
        && binds[k] == (BindingV { name: first[k].name, heap: first[k].heap }) by {
        lemma_own(names[k]);
    }
    lemma_ties_all(first, binds);
    assert forall|k: int| 0 <= k < binds.len() && (#[trigger] binds[k]).heap implies primes(
        binds[k].name,
    ) == 0 by {
        lemma_own(names[k]);
    }
    assert(first =~= cut(first, first.len())) by {
        assert forall|k: int| 0 <= k < first.len() implies first[k] == cut(
            first,
            first.len(),
        )[k] by {
            assert(!synthetic(first[k].name));
        }
    }
}

/// The arms of a match keep the balance.
proof fn lemma_arms(
    env: Seq<Bind>,
    st: ArcV,
    arms: Seq<ArmV>,
    i: int,
    entry: Option<Seq<Bind>>,
    looped: bool,
)
    requires
        in_balance(env, st, entry),
        0 <= i,
        looped ==> entry is Some,
        forall|k: int| 0 <= k < arms.len() ==> tidy_arm(#[trigger] arms[k], looped),
    ensures
        ({
            let out = arc_arms(st, arms, i).0;
            forall|k: int| 0 <= k < out.len() ==> arm_fine(env, #[trigger] out[k], entry)
        }),
    decreases arms, arms.len() - i,
{
    if i < arms.len() {
        let arm = arms[i];
        assert(tidy_arm(arm, looped));
        lemma_arm_binds(arm.pattern);
        let first = arm_binds(arm.pattern);
        lemma_add(env, st, entry, first);
        let inner = ArcV { binds: st.binds + arm_bindings(arm.pattern), ..st };
        lemma_block(env, first, inner, arm.body, entry, looped);
        let (head, tmp1) = arc_arm(st, arm);
        assert(arm_fine(env, head, entry));
        let st1 = ArcV { tmp: tmp1, ..st };
        lemma_arms(env, st1, arms, i + 1, entry, looped);
        let rest = arc_arms(st1, arms, i + 1).0;
        let out = arc_arms(st, arms, i).0;
        assert forall|k: int| 0 <= k < out.len() implies arm_fine(
            env,
            #[trigger] out[k],
            entry,
        ) by {
            if k > 0 {
                assert(out[k] == rest[k - 1]);
            }
        }
    }
}

proof fn lemma_all_arms(env: Seq<Bind>, arms: Seq<ArmV>, n: nat, entry: Option<Seq<Bind>>)
    requires
        n <= arms.len(),
        forall|k: int| 0 <= k < arms.len() ==> arm_fine(env, #[trigger] arms[k], entry),
    ensures
        arms_fine(env, arms, n, entry),
    decreases n,
{
    if n > 0 {
        lemma_all_arms(env, arms, (n - 1) as nat, entry);
        assert(arm_fine(env, arms[n - 1], entry));
    }
}

// ----- functions -------------------------------------------------------------------------------
/// Retaining the heap parameters among the first `n` gives each a reference.
proof fn lemma_retains(env: Seq<Bind>, n: nat)
    requires
        n <= env.len(),
        named(ties(env)),
        forall|k: int| 0 <= k < env.len() ==> !synthetic((#[trigger] env[k]).name),
    ensures
        ({
            let out = takes(ties(env), n);
            &&& ties(env.take(n as int)).len() == n
            &&& run(cut(env, 0), out, out.len(), None) == Outcome::Falls(cut(env, n))
        }),
    decreases n,
{
    reveal(takes);
    let binds = ties(env);
    let out = takes(binds, n);
    if n == 0 {
        assert(out =~= Seq::empty());
        assert(env.take(0) =~= Seq::empty());
    } else {
        let k = n - 1;
        let none = Seq::<Bind>::empty();
        lemma_retains(env, k as nat);
        assert(env.take(n as int) =~= env.take(k).push(env[k]));
        lemma_ties_push(env.take(k), env[k]);
        lemma_ties_take(env, n as int);
        assert(ties(env.take(n as int))[k] == binds[k]);
        let cur = cut(env, k as nat);
        if env[k].heap {
            assert(cur =~= cut(env, k as nat) + none);
            lemma_counted(env, cur, k as nat, none, k);
            let take = StmtV::Retain(counted_name(binds, k));
            let less = takes(binds, k as nat);
            assert(out =~= less + seq![take]);
            let after = cur.update(k, Bind { count: 1, ..cur[k] });
            lemma_run_one(cur, take, None);
            assert(step(cur, take, None) == Outcome::Falls(after));
            assert(after =~= cut(env, n));
            lemma_run_both(cut(env, 0), less, seq![take], None);
        } else {
            assert(cur =~= cut(env, n));
        }
    }
}

/// A tidy function is balanced once its references are counted.
proof fn lemma_function_balances(tmp: usize, f: FunctionV)
    requires
        tidy_function(f),
    ensures
        function_balanced(arc_function(tmp, f).0),
{
    let params = param_bindings(f);
    let binds = param_binds(f);
    let names = param_names(f);
    let n = binds.len();
    let whole = arc_function(tmp, f).0;
    assert(crate::lowering::all_params(whole) == crate::lowering::all_params(f));
    assert(param_binds(whole) == binds);
    assert forall|k: int| 0 <= k < n implies !synthetic((#[trigger] binds[k]).name) && params[k]
        == (BindingV { name: binds[k].name, heap: binds[k].heap }) by {
        lemma_own(names[k]);
    }
    lemma_ties_all(binds, params);
    assert forall|k: int| 0 <= k < params.len() && (#[trigger] params[k]).heap implies primes(
        params[k].name,
    ) == 0 by {
        lemma_own(names[k]);
    }
    // The parameters are retained.
    lemma_retains(binds, n);
    assert(cut(binds, 0) =~= binds);
    let env = cut(binds, n);
    lemma_ties_cut(binds, n);
    assert(env =~= cut(env, env.len()));
    // Then the body owns them.
    let none = Seq::<Bind>::empty();
    let st = ArcV { binds: params, around: 0, tmp };
    assert(none + env =~= env);
    assert(ties(none).len() == 0);
    lemma_block(none, env, st, f.body, None, false);
    let body = arc_block(st, f.body, 0).0;
    assert(none + binds =~= binds);
    lemma_run_both(binds, takes(params, n), body, None);
}

/// Every heap value's reference count is balanced at scope boundaries: in the
/// body that an accepted function is rewritten to, no binding releases what it
/// does not hold, each scope releases what it owns, a return leaves nothing
/// held but the result, and `break` and `continue` leave what was held when
/// the loop began.
pub proof fn law_references_balance(tmp: usize, st: State, f: FunctionV)
    requires
        written_function(f),
        !st.env.in_loop,
        checked_function(st, f).2 is Ok,
    ensures
        function_balanced(arc_function(tmp, checked_function(st, f).0).0),
{
    let f1 = checked_function(st, f).0;
    law_accepted_functions_are_tidy(st, f);
    lemma_function_balances(tmp, f1);
}

/// The references of a whole program balance, once it was accepted.
pub proof fn law_program_balances(tmp: usize, p: ProgramV)
    requires
        forall|i: int|
            0 <= i < p.functions.len() ==> written_function(#[trigger] p.functions[i]),
        analyzed(fresh_state(), p).2 is Ok,
    ensures
        ({
            let fs = arc_program(tmp, analyzed(fresh_state(), p).0).0.functions;
            &&& fs.len() == p.functions.len()
            &&& forall|i: int| 0 <= i < fs.len() ==> function_balanced(#[trigger] fs[i])
        }),
{
    let st = State { tables: enter_all(fresh_state().tables, p).0, ..fresh_state() };
    lemma_functions_balance(tmp, st, p.functions, 0);
}

/// The functions from position `i` on, with temporaries from `here` on.
proof fn lemma_functions_balance(here: usize, st: State, fs: Seq<FunctionV>, i: int)
    requires
        0 <= i <= fs.len(),
        !st.env.in_loop,
        forall|k: int| 0 <= k < fs.len() ==> written_function(#[trigger] fs[k]),
        checked_functions(st, fs, i).2 is Ok,
    ensures
        ({
            let all = arc_functions(here, checked_functions(st, fs, i).0, 0).0;
            &&& all.len() == fs.len() - i
            &&& forall|k: int| 0 <= k < all.len() ==> function_balanced(#[trigger] all[k])
        }),
    decreases fs.len() - i,
{
    if i < fs.len() {
        assert(written_function(fs[i]));
        law_references_balance(here, st, fs[i]);
        law_accepted_functions_are_tidy(st, fs[i]);
        let (f1, st1, r) = checked_function(st, fs[i]);
        let (f2, next) = arc_function(here, f1);
        lemma_functions_balance(next, st1, fs, i + 1);
        let rest1 = checked_functions(st1, fs, i + 1).0;
        let all1 = seq![f1] + rest1;
        lemma_functions_shift(next, f1, rest1, 0);
        let rest2 = arc_functions(next, rest1, 0).0;
        let all2 = arc_functions(here, all1, 0).0;
        assert(all2 =~= seq![f2] + rest2);
        assert forall|k: int| 0 <= k < all2.len() implies function_balanced(
            #[trigger] all2[k],
        ) by {
            if k > 0 {
                assert(all2[k] == rest2[k - 1]);
            }
        }
    }
}

proof fn lemma_functions_shift(tmp: usize, f: FunctionV, fs: Seq<FunctionV>, i: int)
    requires
        0 <= i,
    ensures
        arc_functions(tmp, seq![f] + fs, i + 1) == arc_functions(tmp, fs, i),
    decreases fs.len() - i,
{
    let all = seq![f] + fs;
    if i < fs.len() {
        assert(all[i + 1] == fs[i]);
        lemma_functions_shift(arc_function(tmp, fs[i]).1, f, fs, i + 1);
    }
}

} // verus!
