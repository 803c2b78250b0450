//! A program that the analysis accepts is lowered, but for the few errors that
//! are left to lowering.
use vstd::prelude::*;
use crate::agreement::{
    agree, has_var, leads_to, left_over, lemma_call_makes, lemma_makes, lemma_method_makes, makes,
    sees, written_expr,
};
use crate::ast::{
    ArmV, EnumV, ExprV, Function, FunctionV, KindV, PatternV, ProgramV, StmtV, StructV, Type,
};
use crate::counting::{
    any_owned, arc_arm, arc_arms, arc_block, arc_expr, arc_function, arc_functions, arc_jump,
    arc_program, arc_return, arc_stmt, arc_stmts, arm_bindings, counted_name, drops, heap_elem,
    heap_type, held_bindings, holder, inside, level, owns_iterable, param_bindings, takes, tmp_name,
    ArcV, BindingV,
};
use crate::diag::Span;
use crate::ir::{Ins, Label, Mark, Ty, Val};
use crate::lexer::is_word;
use crate::lowering::{
    all_params, arm_test, at_entry, begin, bind_payload, bind_var, branch_if_open, callees_of,
    consume_heap, cx_of, emit, find_hidden, find_var, flush, foreach_slots, foreach_take,
    foreach_test, function_key, keep_alive, label, low_arm, low_arms, low_assign, low_bare,
    low_block, low_body, low_call, low_cond, low_count, low_expr, low_field_assign, low_for,
    low_foreach, low_function, low_functions, low_hold, low_if, low_index_assign, low_jump, low_let,
    low_match, low_method, low_return, low_stmt, low_stmts, low_while, lowered, pattern_place,
    push_scope, reg, release, retain, struct_ids_of, symbols_of, ty_of, Cx, Done, Gen, Slots,
};
use crate::naming::{
    bare, lemma_own_unprimed, lemma_primes_tell, own_name, own_names, param_names, primes,
};
use crate::sema::lemma_enter_all_known;
use crate::shape::{
    fresh_start, lemma_arm_test, lemma_begin, lemma_bind_var, lemma_block, lemma_branch_if_open,
    lemma_cond, lemma_emit, lemma_entry, lemma_expr, lemma_flush_all, lemma_for, lemma_foreach,
    lemma_foreach_pieces, lemma_hold, lemma_if, lemma_keep_alive, lemma_match, lemma_payload,
    lemma_push_pop, lemma_retain, lemma_simple, lemma_stmts, lemma_while, ready,
};
use crate::soundness::{lemma_arm_scopes, lemma_block_scopes, lemma_for_scopes, lemma_loop_scopes};
use crate::text::{dec, lemma_numeral_ends};
use crate::typing::{
    all_known, analyzed, bind_all, block_known, builtin, checked, checked_arm, checked_arms,
    checked_assign, checked_block, checked_each, checked_field_assign, checked_for,
    checked_function, checked_functions, checked_if, checked_index_assign, checked_let,
    checked_loop, checked_match, checked_range, checked_return, checked_stmts, checked_while,
    covering, declare, enter_all, enter_all_variants, enter_enums, enter_externs, enter_function,
    enter_functions, enter_structs, enter_variants, enum_known, fresh_state, function_known,
    is_empty_array, is_new, known, lookup, padded, param_types, program_known, pushed,
    receiver_scope, stmt_known, tables_known, typed, typed_as, Env, Scopes, SigV, State, Tables,
};

verus! {

// ----- statements as they are written -------------------------------------------------------
/// Whether a statement is one that a program is written with: no retain or
/// release, no constructor, and only names of its own.
pub open spec fn written(s: StmtV) -> bool
    decreases s,
{
    match s {
        StmtV::Let { name, ty, value, line } => own_name(name) && written_expr(value),
        StmtV::Assign { name, value, line } => written_expr(value),
        StmtV::IndexAssign { target, index, value, line } => {
            &&& written_expr(target)
            &&& written_expr(index)
            &&& written_expr(value)
        },
        StmtV::FieldAssign { target, field, value, line } => written_expr(target) && written_expr(
            value,
        ),
        StmtV::Expr(e) => written_expr(e),
        StmtV::Return { value, line } => value matches Some(e) ==> written_expr(e),
        StmtV::If { cond, then_block, else_block } => {
            &&& written_expr(cond)
            &&& written_block(then_block)
            &&& match else_block {
                Some(b) => written_block(b),
                None => true,
            }
        },
        StmtV::While { cond, body } => written_expr(cond) && written_block(body),
        StmtV::For { var, start, end, body, line } => {
            &&& own_name(var)
            &&& written_expr(start)
            &&& written_expr(end)
            &&& written_block(body)
        },
        StmtV::ForEach { var, iterable, body, line } => {
            &&& own_name(var)
            &&& written_expr(iterable)
            &&& written_block(body)
        },
        StmtV::Match { scrutinee, arms, line } => written_expr(scrutinee) && written_arms(arms),
        StmtV::Break { .. } | StmtV::Continue { .. } => true,
        StmtV::Retain(_) | StmtV::Release(_) => false,
    }
}

pub open spec fn written_block(b: Seq<StmtV>) -> bool
    decreases b,
{
    forall|i: int| 0 <= i < b.len() ==> written(#[trigger] b[i])
}

pub open spec fn written_arm(a: ArmV) -> bool
    decreases a,
{
    &&& a.pattern matches PatternV::Variant { name, bindings, types } ==> own_names(bindings)
    &&& written_block(a.body)
}

pub open spec fn written_arms(arms: Seq<ArmV>) -> bool
    decreases arms,
{
    forall|i: int| 0 <= i < arms.len() ==> written_arm(#[trigger] arms[i])
}

// ----- variables ------------------------------------------------------------------------------
/// The variables with one more in the innermost scope.
spec fn with_slot(vars: Seq<Slots>, name: Seq<char>, slot: usize, ty: Type) -> Seq<Slots> {
    vars.drop_last().push(vars.last().insert(name, (slot, ty)))
}

proof fn lemma_find_with(
    vars: Seq<Slots>,
    name: Seq<char>,
    slot: usize,
    ty: Type,
    other: Seq<char>,
)
    requires
        vars.len() > 0,
    ensures
        find_var(with_slot(vars, name, slot, ty), other) == (if other == name {
            Some((slot, ty))
        } else {
            find_var(vars, other)
        }),
{
    assert(with_slot(vars, name, slot, ty).drop_last() =~= vars.drop_last());
}

proof fn lemma_lookup_declare(sc: Scopes, name: Seq<char>, ty: Type, other: Seq<char>)
    requires
        sc.len() > 0,
    ensures
        lookup(declare(sc, name, ty), other) == (if other == name {
            Some(ty)
        } else {
            lookup(sc, other)
        }),
{
    assert(declare(sc, name, ty).drop_last() =~= sc.drop_last());
}

/// Both sides take in a declaration.
proof fn lemma_sees_declare(
    t: Tables,
    sc: Scopes,
    vars: Seq<Slots>,
    name: Seq<char>,
    slot: usize,
    ty: Type,
)
    requires
        sees(t, sc, vars),
        sc.len() > 0,
        vars.len() > 0,
        own_name(name),
        known(t.structs.len(), t.enums.len(), ty),
    ensures
        sees(t, declare(sc, name, ty), with_slot(vars, name, slot, ty)),
{
    reveal(sees);
    let sc1 = declare(sc, name, ty);
    let vars1 = with_slot(vars, name, slot, ty);
    assert forall|n: Seq<char>| #[trigger] lookup(sc1, n) is Some implies {
        let found = lookup(sc1, n)->0;
        &&& known(t.structs.len(), t.enums.len(), found)
        &&& own_name(n)
        &&& has_var(vars1, n, found)
    } by {
        lemma_lookup_declare(sc, name, ty, n);
        lemma_find_with(vars, name, slot, ty, n);
        if n != name {
            assert(lookup(sc, n) is Some);
        }
    }
}

/// A variable that no program names is one that the analysis does not know.
proof fn lemma_sees_temp(
    t: Tables,
    sc: Scopes,
    vars: Seq<Slots>,
    name: Seq<char>,
    slot: usize,
    ty: Type,
)
    requires
        sees(t, sc, vars),
        vars.len() > 0,
        !own_name(name),
    ensures
        sees(t, sc, with_slot(vars, name, slot, ty)),
{
    reveal(sees);
    let vars1 = with_slot(vars, name, slot, ty);
    assert forall|n: Seq<char>| #[trigger] lookup(sc, n) is Some implies {
        let found = lookup(sc, n)->0;
        &&& known(t.structs.len(), t.enums.len(), found)
        &&& own_name(n)
        &&& has_var(vars1, n, found)
    } by {
        lemma_find_with(vars, name, slot, ty, n);
    }
}

proof fn lemma_find_push(vars: Seq<Slots>, name: Seq<char>)
    ensures
        find_var(vars.push(Map::empty()), name) == find_var(vars, name),
{
    assert(vars.push(Map::empty()).drop_last() =~= vars);
}

/// A scope of lowering without variables changes nothing.
proof fn lemma_sees_push_vars(t: Tables, sc: Scopes, vars: Seq<Slots>)
    requires
        sees(t, sc, vars),
    ensures
        sees(t, sc, vars.push(Map::empty())),
{
    reveal(sees);
    let vars1 = vars.push(Map::empty());
    assert forall|n: Seq<char>| #[trigger] lookup(sc, n) is Some implies {
        let found = lookup(sc, n)->0;
        &&& known(t.structs.len(), t.enums.len(), found)
        &&& own_name(n)
        &&& has_var(vars1, n, found)
    } by {
        lemma_find_push(vars, n);
    }
}

/// Nor does a scope of the analysis.
proof fn lemma_sees_push(t: Tables, sc: Scopes, vars: Seq<Slots>)
    requires
        sees(t, sc, vars),
    ensures
        sees(t, pushed(sc), vars),
{
    reveal(sees);
    let sc1 = pushed(sc);
    assert(sc1.drop_last() =~= sc);
    assert forall|n: Seq<char>| #[trigger] lookup(sc1, n) is Some implies {
        let found = lookup(sc1, n)->0;
        &&& known(t.structs.len(), t.enums.len(), found)
        &&& own_name(n)
        &&& has_var(vars, n, found)
    } by {
        assert(lookup(sc1, n) == lookup(sc, n));
    }
}

// ----- bindings in sight ------------------------------------------------------------------------
/// How many scopes have a variable of that name.
spec fn depth(vars: Seq<Slots>, name: Seq<char>) -> nat
    decreases vars.len(),
{
    if vars.len() == 0 {
        0
    } else {
        depth(vars.drop_last(), name) + (if vars.last().contains_key(name) {
            1nat
        } else {
            0
        })
    }
}

/// A variable that fewer others hide than there are is found.
proof fn lemma_hidden(vars: Seq<Slots>, name: Seq<char>, k: nat)
    ensures
        k < depth(vars, name) ==> find_hidden(vars, name, k) is Some,
        find_hidden(vars, name, 0) == find_var(vars, name),
    decreases vars.len(),
{
    if vars.len() > 0 {
        lemma_hidden(vars.drop_last(), name, k);
        if k > 0 {
            lemma_hidden(vars.drop_last(), name, (k - 1) as nat);
        }
    }
}

/// Whether there are as many variables as there are bindings in sight, name by
/// name, and what is owned can be named.
#[verifier::opaque]
spec fn held(binds: Seq<BindingV>, vars: Seq<Slots>) -> bool {
    &&& forall|n: Seq<char>| #[trigger] level(binds, n) <= depth(vars, n)
    &&& forall|i: int|
        0 <= i < binds.len() && (#[trigger] binds[i]).heap ==> primes(binds[i].name) == 0
}

/// Whether every variable of `vars` is there in `more`, too.
spec fn within(vars: Seq<Slots>, more: Seq<Slots>) -> bool {
    forall|n: Seq<char>| #[trigger] depth(vars, n) <= depth(more, n)
}

/// Whether the innermost scope of lowering holds no name of the program's that
/// is not in the innermost scope of the analysis.
#[verifier::opaque]
spec fn bound_here(sc: Scopes, vars: Seq<Slots>) -> bool {
    forall|n: Seq<char>| #[trigger]
        vars.last().contains_key(n) && own_name(n) ==> sc.last().contains_key(n)
}

proof fn lemma_held_within(binds: Seq<BindingV>, vars: Seq<Slots>, more: Seq<Slots>)
    requires
        held(binds, vars),
        within(vars, more),
    ensures
        held(binds, more),
{
    reveal(held);
    assert forall|n: Seq<char>| #[trigger] level(binds, n) <= depth(more, n) by {
        assert(depth(vars, n) <= depth(more, n));
    }
}

proof fn lemma_depth_with(
    vars: Seq<Slots>,
    name: Seq<char>,
    slot: usize,
    ty: Type,
    other: Seq<char>,
)
    requires
        vars.len() > 0,
    ensures
        depth(with_slot(vars, name, slot, ty), other) == depth(vars, other) + (if other == name
            && !vars.last().contains_key(name) {
            1nat
        } else {
            0
        }),
{
    assert(with_slot(vars, name, slot, ty).drop_last() =~= vars.drop_last());
}

proof fn lemma_within_with(vars: Seq<Slots>, name: Seq<char>, slot: usize, ty: Type)
    requires
        vars.len() > 0,
    ensures
        within(vars, with_slot(vars, name, slot, ty)),
        find_var(with_slot(vars, name, slot, ty), name) == Some((slot, ty)),
{
    lemma_find_with(vars, name, slot, ty, name);
    assert forall|n: Seq<char>| #[trigger] depth(vars, n) <= depth(
        with_slot(vars, name, slot, ty),
        n,
    ) by {
        lemma_depth_with(vars, name, slot, ty, n);
    }
}

proof fn lemma_within_push(vars: Seq<Slots>)
    ensures
        within(vars, vars.push(Map::empty())),
{
    assert(vars.push(Map::empty()).drop_last() =~= vars);
}

/// What is there outside the innermost scope is there.
proof fn lemma_within_last(vars: Seq<Slots>)
    requires
        vars.len() > 0,
    ensures
        within(vars.drop_last(), vars),
{
}

/// An empty scope of lowering holds nothing.
proof fn lemma_bound_push(sc: Scopes, vars: Seq<Slots>)
    ensures
        bound_here(sc, vars.push(Map::empty())),
{
    reveal(bound_here);
}

/// A variable that no program names.
proof fn lemma_bound_temp(sc: Scopes, vars: Seq<Slots>, name: Seq<char>, slot: usize, ty: Type)
    requires
        bound_here(sc, vars),
        vars.len() > 0,
        !own_name(name),
    ensures
        bound_here(sc, with_slot(vars, name, slot, ty)),
{
    reveal(bound_here);
}

/// One more binding, and a slot for it.
proof fn lemma_held_bind(
    binds: Seq<BindingV>,
    vars: Seq<Slots>,
    b: BindingV,
    slot: usize,
    ty: Type,
)
    requires
        held(binds, vars),
        vars.len() > 0,
        !vars.last().contains_key(b.name),
        primes(b.name) == 0,
    ensures
        held(binds.push(b), with_slot(vars, b.name, slot, ty)),
{
    reveal(held);
    let more = with_slot(vars, b.name, slot, ty);
    assert(binds.push(b).drop_last() =~= binds);
    assert forall|n: Seq<char>| #[trigger] level(binds.push(b), n) <= depth(more, n) by {
        lemma_depth_with(vars, b.name, slot, ty, n);
        assert(level(binds, n) <= depth(vars, n));
    }
}

/// One more binding of the program's, which both sides take in.
proof fn lemma_declares(
    t: Tables,
    sc: Scopes,
    binds: Seq<BindingV>,
    vars: Seq<Slots>,
    name: Seq<char>,
    slot: usize,
    ty: Type,
    heap: bool,
)
    requires
        sees(t, sc, vars),
        held(binds, vars),
        bound_here(sc, vars),
        sc.len() > 0,
        vars.len() > 0,
        own_name(name),
        is_new(sc, name),
        known(t.structs.len(), t.enums.len(), ty),
    ensures
        sees(t, declare(sc, name, ty), with_slot(vars, name, slot, ty)),
        held(binds.push(BindingV { name, heap }), with_slot(vars, name, slot, ty)),
        bound_here(declare(sc, name, ty), with_slot(vars, name, slot, ty)),
        within(vars, with_slot(vars, name, slot, ty)),
        find_var(with_slot(vars, name, slot, ty), name) == Some((slot, ty)),
{
    lemma_sees_declare(t, sc, vars, name, slot, ty);
    lemma_own_unprimed(name);
    lemma_within_with(vars, name, slot, ty);
    assert(!vars.last().contains_key(name)) by {
        reveal(bound_here);
    }
    lemma_held_bind(binds, vars, BindingV { name, heap }, slot, ty);
    reveal(bound_here);
    let sc1 = declare(sc, name, ty);
    let vars1 = with_slot(vars, name, slot, ty);
    assert forall|n: Seq<char>| #[trigger]
        vars1.last().contains_key(n) && own_name(n) implies sc1.last().contains_key(n) by {
        if n != name {
            assert(vars.last().contains_key(n));
        }
    }
}

// ----- sequences of statements -------------------------------------------------------------------
proof fn lemma_shift(cx: Cx, g: Gen, a: Seq<StmtV>, b: Seq<StmtV>, j: int)
    requires
        0 <= j <= b.len(),
    ensures
        low_stmts(cx, g, a + b, a.len() + j) == low_stmts(cx, g, b, j),
    decreases b.len() - j,
{
    if j < b.len() && g.open {
        assert((a + b)[a.len() + j] == b[j]);
        if let Ok(g1) = low_stmt(cx, g, b[j]) {
            lemma_shift(cx, g1, a, b, j + 1);
        }
    }
}

proof fn lemma_prefix(cx: Cx, g: Gen, a: Seq<StmtV>, b: Seq<StmtV>, i: int)
    requires
        0 <= i <= a.len(),
    ensures
        low_stmts(cx, g, a + b, i) == (match low_stmts(cx, g, a, i) {
            Err(m) => Err(m),
            Ok(g1) => low_stmts(cx, g1, b, 0),
        }),
    decreases a.len() - i,
{
    if i < a.len() {
        if g.open {
            assert((a + b)[i] == a[i]);
            if let Ok(g1) = low_stmt(cx, g, a[i]) {
                lemma_prefix(cx, g1, a, b, i + 1);
            }
        }
    } else {
        lemma_shift(cx, g, a, b, 0);
    }
}

/// Two sequences are lowered one after the other.
proof fn lemma_concat(cx: Cx, g: Gen, a: Seq<StmtV>, b: Seq<StmtV>)
    ensures
        low_stmts(cx, g, a + b, 0) == (match low_stmts(cx, g, a, 0) {
            Err(m) => Err(m),
            Ok(g1) => low_stmts(cx, g1, b, 0),
        }),
{
    lemma_prefix(cx, g, a, b, 0);
}

proof fn lemma_one(cx: Cx, g: Gen, s: StmtV)
    requires
        g.open,
    ensures
        low_stmts(cx, g, seq![s], 0) == low_stmt(cx, g, s),
{
    if let Ok(g1) = low_stmt(cx, g, s) {
        assert(low_stmts(cx, g1, seq![s], 1) == Ok::<Gen, Seq<char>>(g1));
    }
}

proof fn lemma_more(cx: Cx, g: Gen, a: Seq<StmtV>, s: StmtV)
    ensures
        low_stmts(cx, g, a.push(s), 0) == (match low_stmts(cx, g, a, 0) {
            Err(m) => Err(m),
            Ok(g1) => if g1.open {
                low_stmt(cx, g1, s)
            } else {
                Ok(g1)
            },
        }),
{
    assert(a.push(s) =~= a + seq![s]);
    lemma_concat(cx, g, a, seq![s]);
    if let Ok(g1) = low_stmts(cx, g, a, 0) {
        if g1.open {
            lemma_one(cx, g1, s);
        }
    }
}

/// Whether a step only adds code.
spec fn only_adds(g: Gen, g1: Gen) -> bool {
    &&& fresh_start(g1)
    &&& g1.vars == g.vars
    &&& g1.loops == g.loops
}

/// A retain or release of a variable that is there.
proof fn lemma_counts(cx: Cx, g: Gen, name: Seq<char>, up: bool)
    requires
        fresh_start(g),
        find_hidden(g.vars, bare(name), primes(name)) is Some,
    ensures
        low_count(g, name, up) matches Ok(g1) && only_adds(g, g1),
{
    reveal(low_count);
    let (slot, ty) = find_hidden(g.vars, bare(name), primes(name))->0;
    let load = Ins::Load(ty_of(ty), Val::Reg(slot));
    lemma_emit(g, load);
    let g1 = emit(g, load);
    lemma_retain(g1, reg(g1));
}

/// The same of one that nothing hides.
proof fn lemma_counts_plain(cx: Cx, g: Gen, name: Seq<char>, up: bool)
    requires
        fresh_start(g),
        primes(name) == 0,
        find_var(g.vars, name) is Some,
    ensures
        low_count(g, name, up) matches Ok(g1) && only_adds(g, g1),
{
    lemma_primes_tell(name, 0);
    lemma_hidden(g.vars, name, 0);
    lemma_counts(cx, g, name, up);
}

/// The names that bindings are counted by lead to variables.
proof fn lemma_counted(binds: Seq<BindingV>, vars: Seq<Slots>, i: int)
    requires
        held(binds, vars),
        0 <= i < binds.len(),
        binds[i].heap,
    ensures
        find_hidden(
            vars,
            bare(counted_name(binds, i)),
            primes(counted_name(binds, i)),
        ) is Some,
{
    reveal(held);
    reveal(counted_name);
    let name = binds[i].name;
    let k = (level(binds, name) - level(binds.take(i + 1), name)) as nat;
    lemma_primes_tell(name, k);
    assert(binds.take(i + 1).last().name == name);
    assert(level(binds, name) <= depth(vars, name));
    lemma_hidden(vars, name, k);
    lemma_level_take(binds, name, i + 1);
}

proof fn lemma_level_take(binds: Seq<BindingV>, name: Seq<char>, n: int)
    requires
        0 <= n <= binds.len(),
    ensures
        level(binds.take(n), name) <= level(binds, name),
    decreases binds.len() - n,
{
    if n < binds.len() {
        lemma_level_take(binds, name, n + 1);
        assert(binds.take(n + 1).drop_last() =~= binds.take(n));
    } else {
        assert(binds.take(n) =~= binds);
    }
}

/// Releases of what is owned.
proof fn lemma_drops(cx: Cx, g: Gen, binds: Seq<BindingV>, from: nat, n: nat)
    requires
        fresh_start(g),
        held(binds, g.vars),
        n <= binds.len(),
    ensures
        low_stmts(cx, g, drops(binds, from, n), 0) matches Ok(g1) && only_adds(g, g1),
    decreases n,
{
    reveal(drops);
    if n > from {
        let rest = drops(binds, from, (n - 1) as nat);
        if binds[n - 1].heap {
            let name = counted_name(binds, n - 1);
            lemma_counted(binds, g.vars, n - 1);
            lemma_counts(cx, g, name, false);
            let one = seq![StmtV::Release(name)];
            lemma_one(cx, g, StmtV::Release(name));
            lemma_concat(cx, g, one, rest);
            let g1 = low_count(g, name, false)->Ok_0;
            lemma_drops(cx, g1, binds, from, (n - 1) as nat);
        } else {
            lemma_drops(cx, g, binds, from, (n - 1) as nat);
        }
    }
}

/// Retains of what is owned.
proof fn lemma_takes(cx: Cx, g: Gen, binds: Seq<BindingV>, n: nat)
    requires
        fresh_start(g),
        held(binds, g.vars),
        n <= binds.len(),
    ensures
        low_stmts(cx, g, takes(binds, n), 0) matches Ok(g1) && only_adds(g, g1),
    decreases n,
{
    reveal(takes);
    if n > 0 {
        let less = takes(binds, (n - 1) as nat);
        lemma_takes(cx, g, binds, (n - 1) as nat);
        if binds[n - 1].heap {
            let name = counted_name(binds, n - 1);
            let g1 = low_stmts(cx, g, less, 0)->Ok_0;
            lemma_counted(binds, g.vars, n - 1);
            lemma_counts(cx, g1, name, true);
            lemma_more(cx, g, less, StmtV::Retain(name));
        }
    }
}

// ----- bindings ----------------------------------------------------------------------------------
/// Where the slot of a binding is.
spec fn let_slot(cx: Cx, g: Gen, value: ExprV) -> usize {
    low_expr(cx, g, value)->Ok_0.0.code.len() as usize
}

/// A binding of a value that is made.
proof fn lemma_binds(cx: Cx, g: Gen, name: Seq<char>, ty: Type, value: ExprV, vt: Type)
    requires
        fresh_start(g),
        makes(low_expr(cx, g, value), vt),
    ensures
        match low_let(cx, g, name, Some(ty), value) {
            Err(m) => left_over(m),
            Ok(g1) => {
                &&& fresh_start(g1)
                &&& g1.loops == g.loops
                &&& g1.vars == with_slot(g.vars, name, let_slot(cx, g, value), ty)
            },
        },
{
    reveal(low_let);
    lemma_expr(cx, g, value);
    if let Ok((g1, v)) = low_expr(cx, g, value) {
        lemma_bind_var(g1, name, ty, v.0);
        let g2 = bind_var(g1, name, ty, v.0);
        assert(g2.vars == with_slot(g1.vars, name, g1.code.len() as usize, ty));
        let g3 = consume_heap(g2, v.0, Some(ty));
        assert(g3 == (Gen { temps: g3.temps, ..g2 }));
        lemma_flush_all(g3);
    }
}

/// No program names a temporary, and nothing hides one.
proof fn lemma_temp_named(n: usize)
    ensures
        !own_name(tmp_name(n)),
        primes(tmp_name(n)) == 0,
{
    reveal_strlit("$arc");
    assert("$arc"@.len() == 4);
    assert(tmp_name(n)[0] == "$arc"@[0]);
    assert(!is_word(tmp_name(n)[0]));
    lemma_numeral_ends(n as nat);
    assert(tmp_name(n).last() == dec(n as nat).last());
}

/// Nor does one name the array that a loop holds.
proof fn lemma_holder_named(var: Seq<char>)
    requires
        own_name(var),
    ensures
        !own_name(holder(var)),
        primes(holder(var)) == 0,
{
    reveal_strlit("in ");
    assert("in "@.len() == 3);
    assert("in "@[2] == ' ');
    assert(holder(var)[2] == "in "@[2]);
    assert(!is_word(holder(var)[2]));
    if var.len() > 0 {
        assert(holder(var).last() == var[var.len() - 1]);
        assert(is_word(var[var.len() - 1]));
    } else {
        assert(holder(var).last() == "in "@[2]);
    }
}

// ----- statements --------------------------------------------------------------------------------
/// Whether the states of analysis, counting and lowering fit together.
spec fn tracks(t: Tables, env: Env, st: ArcV, g: Gen) -> bool {
    &&& fresh_start(g)
    &&& env.scopes.len() > 0
    &&& sees(t, env.scopes, g.vars)
    &&& held(st.binds, g.vars)
    &&& bound_here(env.scopes, g.vars)
    &&& env.in_loop ==> g.loops.len() > 0
}

/// Whether the outcome of some statements is one that may be, and the states
/// behind them fit together where control gets there.
spec fn goes_well(t: Tables, env: Env, st: ArcV, r: Done) -> bool {
    match r {
        Err(m) => left_over(m),
        Ok(g1) => g1.open ==> tracks(t, env, st, g1),
    }
}

/// Whether tables are in order.
spec fn setting(t: Tables, cx: Cx) -> bool {
    agree(t, cx) && tables_known(t)
}

proof fn lemma_let_lowers(
    t: Tables,
    cx: Cx,
    ret: Type,
    env: Env,
    st: ArcV,
    g: Gen,
    s: StmtV,
)
    requires
        setting(t, cx),
        tracks(t, env, st, g),
        s is Let,
        written(s),
        stmt_known(t.structs.len(), t.enums.len(), s),
        checked(t, ret, env, s).2 is Ok,
    ensures
        ({
            let (s1, env1, r) = checked(t, ret, env, s);
            let (out, st1) = arc_stmt(st, s1);
            goes_well(t, env1, st1, low_stmts(cx, g, out, 0))
        }),
{
    reveal(checked_let);
    let (s1, env1, r) = checked(t, ret, env, s);
    let (out, st1) = arc_stmt(st, s1);
    if let StmtV::Let { name, ty, value, line } = s {
        let value1 = s1->Let_value;
        let vt = s1->Let_ty->0;
        if is_empty_array(value) {
            let es = value.kind->ArrayLit_0;
            assert(value1.kind == value.kind && value1.ty == Some(vt));
            lemma_empty_array(cx, g, value1, vt);
        } else {
            lemma_makes(t, cx, env.scopes, g, value);
        }
        assert(known(t.structs.len(), t.enums.len(), vt));
        assert(env1.scopes == declare(env.scopes, name, vt));
        let bind = StmtV::Let { name, ty: Some(vt), value: value1, line };
        assert(s1 == bind);
        lemma_binds(cx, g, name, vt, value1, vt);
        lemma_one(cx, g, bind);
        if let Ok(g1) = low_let(cx, g, name, Some(vt), value1) {
            let slot = let_slot(cx, g, value1);
            let heap = heap_type(Some(vt));
            lemma_declares(t, env.scopes, st.binds, g.vars, name, slot, vt, heap);
            lemma_own_unprimed(name);
            lemma_counts_plain(cx, g1, name, true);
            if heap_type(Some(vt)) && value1.kind is Var {
                assert(out =~= seq![bind].push(StmtV::Retain(name)));
                lemma_more(cx, g, seq![bind], StmtV::Retain(name));
            }
        } else {
            if heap_type(Some(vt)) && value1.kind is Var {
                assert(out =~= seq![bind].push(StmtV::Retain(name)));
                lemma_more(cx, g, seq![bind], StmtV::Retain(name));
            }
        }
    }
}

/// An array literal without elements.
proof fn lemma_empty_array(cx: Cx, g: Gen, e: ExprV, ty: Type)
    requires
        ready(g),
        is_empty_array(e),
        e.ty == Some(ty),
        ty is Array,
    ensures
        makes(low_expr(cx, g, e), ty),
{
    let es = e.kind->ArrayLit_0;
    let elem = ty.elem()->0;
    let args = seq![
        (Val::Int(crate::lowering::array_kind(elem)), Ty::I64),
        (Val::Int(crate::lowering::array_room(es.len())), Ty::I64),
    ];
    let g1 = crate::lowering::call_rt(g, Ty::Ptr, crate::ir::Rt::ArrNew, args);
    assert(crate::lowering::low_elems(cx, g1, reg(g1), elem, es, es.len()) == Ok::<
        Gen,
        Seq<char>,
    >(g1));
    assert(low_expr(cx, g, e) == crate::lowering::low_array(cx, g, es, e.ty));
}

/// A heap value that is bound to a temporary and released.
proof fn lemma_expr_lowers(t: Tables, cx: Cx, ret: Type, env: Env, st: ArcV, g: Gen, e: ExprV)
    requires
        setting(t, cx),
        tracks(t, env, st, g),
        written_expr(e),
        typed(t, env.scopes, e).1 is Ok,
    ensures
        ({
            let (out, st1) = arc_expr(st, typed(t, env.scopes, e).0);
            goes_well(t, env, st1, low_stmts(cx, g, out, 0))
        }),
{
    let (e1, r) = typed(t, env.scopes, e);
    let ty = r->Ok_0;
    let (out, st1) = arc_expr(st, e1);
    lemma_makes(t, cx, env.scopes, g, e);
    if heap_type(e1.ty) {
        let name = tmp_name(st.tmp);
        let bind = StmtV::Let { name, ty: e1.ty, value: e1, line: e1.span.line };
        lemma_binds(cx, g, name, ty, e1, ty);
        lemma_one(cx, g, bind);
        let kept = if e1.kind is Var {
            seq![bind].push(StmtV::Retain(name))
        } else {
            seq![bind]
        };
        assert(out =~= kept.push(StmtV::Release(name)));
        lemma_more(cx, g, seq![bind], StmtV::Retain(name));
        lemma_more(cx, g, kept, StmtV::Release(name));
        if let Ok(g1) = low_let(cx, g, name, Some(ty), e1) {
            let slot = let_slot(cx, g, e1);
            lemma_temp_named(st.tmp);
            lemma_sees_temp(t, env.scopes, g.vars, name, slot, ty);
            lemma_bound_temp(env.scopes, g.vars, name, slot, ty);
            lemma_within_with(g.vars, name, slot, ty);
            lemma_held_within(st.binds, g.vars, g1.vars);
            lemma_counts_plain(cx, g1, name, true);
            let g2 = if e1.kind is Var {
                low_count(g1, name, true)->Ok_0
            } else {
                g1
            };
            lemma_counts_plain(cx, g2, name, false);
        }
    } else {
        lemma_one(cx, g, StmtV::Expr(e1));
        lemma_bare_lowers(t, cx, env, g, e);
        lemma_simple(cx, g, StmtV::Expr(e1));
        reveal(low_bare);
        if let Ok(g1) = low_bare(cx, g, e1) {
            lemma_bare_keeps(cx, g, e1);
        }
    }
}

proof fn lemma_bare_lowers(t: Tables, cx: Cx, env: Env, g: Gen, e: ExprV)
    requires
        setting(t, cx),
        fresh_start(g),
        sees(t, env.scopes, g.vars),
        written_expr(e),
        typed(t, env.scopes, e).1 is Ok,
    ensures
        low_bare(cx, g, typed(t, env.scopes, e).0) matches Err(m) ==> left_over(m),
{
    reveal(low_bare);
    let sc = env.scopes;
    let e1 = typed(t, sc, e).0;
    lemma_makes(t, cx, sc, g, e);
    assert(crate::agreement::written_kind(e.kind));
    if crate::typing::constructs(t, sc, e) is None {
        assert(crate::typing::typed_kind(t, sc, e.kind, e.span).0 == e1.kind);
        match e.kind {
            KindV::Call(name, args) => {
                lemma_call_makes(t, cx, sc, g, name, args, e.span, e.span.line);
            },
            KindV::MethodCall(recv, name, args) => {
                lemma_method_makes(t, cx, sc, g, e);
            },
            _ => {},
        }
    }
}

/// A bare expression leaves variables and the block open as they were.
proof fn lemma_bare_keeps(cx: Cx, g: Gen, e: ExprV)
    requires
        fresh_start(g),
    ensures
        low_bare(cx, g, e) matches Ok(g1) ==> only_adds(g, g1),
{
    reveal(low_bare);
    lemma_expr(cx, g, e);
    if let Ok((g1, v)) = low_expr(cx, g, e) {
        lemma_flush_all(g1);
    }
    match e.kind {
        KindV::Call(name, args) => {
            crate::shape::lemma_call_expr(cx, g, name, args, e.span.line);
            if let Ok((g1, v)) = low_call(cx, g, name, args, e.span.line) {
                lemma_flush_all(g1);
            }
        },
        KindV::MethodCall(..) => {
            crate::shape::lemma_method(cx, g, e);
            if let Ok((g1, v)) = low_method(cx, g, e) {
                lemma_flush_all(g1);
            }
        },
        _ => {},
    }
}

/// A return of a value that was bound to a temporary, behind the releases.
proof fn lemma_result_lowers(
    cx: Cx,
    st: ArcV,
    g: Gen,
    e1: ExprV,
    ty: Type,
    line: usize,
)
    requires
        fresh_start(g),
        held(st.binds, g.vars),
        any_owned(st.binds),
        e1.ty == Some(ty),
        makes(low_expr(cx, g, e1), ty),
    ensures
        match low_stmts(cx, g, arc_return(st, Some(e1), line).0, 0) {
            Err(m) => left_over(m),
            Ok(g1) => !g1.open,
        },
{
    let out = arc_return(st, Some(e1), line).0;
    let dropped = drops(st.binds, 0, st.binds.len());
    let name = tmp_name(st.tmp);
    let bind = StmtV::Let { name, ty: e1.ty, value: e1, line };
    let keeps = heap_type(e1.ty) && e1.kind is Var;
    let bound = if keeps {
        seq![bind, StmtV::Retain(name)]
    } else {
        seq![bind]
    };
    let result = ExprV { kind: KindV::Var(name), span: Span::of_line(line), ty: e1.ty };
    let last = StmtV::Return { value: Some(result), line };
    assert(out == (bound + dropped).push(last));
    lemma_more(cx, g, bound + dropped, last);
    lemma_concat(cx, g, bound, dropped);
    lemma_temp_named(st.tmp);
    lemma_result_bound(cx, g, name, e1, ty, bind, bound, keeps);
    if let Ok(g2) = low_stmts(cx, g, bound, 0) {
        lemma_held_within(st.binds, g.vars, g2.vars);
        lemma_drops(cx, g2, st.binds, 0, st.binds.len());
        let g3 = low_stmts(cx, g2, dropped, 0)->Ok_0;
        lemma_returns(cx, g3, name, result);
    }
}

/// The result goes into its temporary.
proof fn lemma_result_bound(
    cx: Cx,
    g: Gen,
    name: Seq<char>,
    e1: ExprV,
    ty: Type,
    bind: StmtV,
    bound: Seq<StmtV>,
    keeps: bool,
)
    requires
        fresh_start(g),
        primes(name) == 0,
        e1.ty == Some(ty),
        makes(low_expr(cx, g, e1), ty),
        bind matches StmtV::Let { name: n, ty: t, value, line } && n == name && t == Some(ty)
            && value == e1,
        bound == (if keeps {
            seq![bind, StmtV::Retain(name)]
        } else {
            seq![bind]
        }),
    ensures
        match low_stmts(cx, g, bound, 0) {
            Err(m) => left_over(m),
            Ok(g1) => fresh_start(g1) && within(g.vars, g1.vars) && find_var(g1.vars, name) is Some,
        },
{
    lemma_binds(cx, g, name, ty, e1, ty);
    lemma_one(cx, g, bind);
    if keeps {
        assert(bound =~= seq![bind].push(StmtV::Retain(name)));
        lemma_more(cx, g, seq![bind], StmtV::Retain(name));
    }
    if let Ok(g1) = low_let(cx, g, name, Some(ty), e1) {
        lemma_within_with(g.vars, name, let_slot(cx, g, e1), ty);
        lemma_counts_plain(cx, g1, name, true);
    }
}

/// A return of a variable that is there.
proof fn lemma_returns(cx: Cx, g: Gen, name: Seq<char>, result: ExprV)
    requires
        fresh_start(g),
        find_var(g.vars, name) is Some,
        result.kind == KindV::Var(name),
    ensures
        low_return(cx, g, Some(result)) matches Ok(g1) && !g1.open,
{
    reveal(low_return);
    reveal(crate::lowering::low_var);
    assert(low_expr(cx, g, result) == crate::lowering::low_var(g, name));
}

/// A return, with everything that is released before it.
proof fn lemma_return_lowers(
    t: Tables,
    cx: Cx,
    ret: Type,
    env: Env,
    st: ArcV,
    g: Gen,
    value: Option<ExprV>,
    line: usize,
)
    requires
        setting(t, cx),
        tracks(t, env, st, g),
        value matches Some(e) ==> written_expr(e),
        checked_return(t, ret, env, value, line).1 is Ok,
    ensures
        ({
            let s1 = checked_return(t, ret, env, value, line).0;
            let out = arc_return(st, s1->Return_value, line).0;
            &&& s1 is Return
            &&& s1->Return_line == line
            &&& match low_stmts(cx, g, out, 0) {
                Err(m) => left_over(m),
                Ok(g1) => !g1.open,
            }
        }),
{
    reveal(checked_return);
    let s1 = checked_return(t, ret, env, value, line).0;
    if let Some(e) = value {
        lemma_makes(t, cx, env.scopes, g, e);
    }
    if !any_owned(st.binds) {
        reveal(low_return);
        lemma_one(cx, g, s1);
    } else {
        match value {
            None => {
                reveal(low_return);
                let dropped = drops(st.binds, 0, st.binds.len());
                lemma_drops(cx, g, st.binds, 0, st.binds.len());
                lemma_more(cx, g, dropped, s1);
            },
            Some(e) => {
                let (e1, r) = typed(t, env.scopes, e);
                lemma_result_lowers(cx, st, g, e1, r->Ok_0, line);
            },
        }
    }
}

/// A jump, with everything that is released before it.
proof fn lemma_jump_lowers(t: Tables, cx: Cx, env: Env, st: ArcV, g: Gen, s: StmtV)
    requires
        tracks(t, env, st, g),
        env.in_loop,
        s is Break || s is Continue,
    ensures
        low_stmts(cx, g, arc_jump(st, s), 0) matches Ok(g1) && !g1.open,
{
    let dropped = drops(st.binds, st.around, st.binds.len());
    lemma_drops(cx, g, st.binds, st.around, st.binds.len());
    lemma_more(cx, g, dropped, s);
    reveal(low_jump);
}

/// Stores.
proof fn lemma_store_lowers(
    t: Tables,
    cx: Cx,
    ret: Type,
    env: Env,
    st: ArcV,
    g: Gen,
    s: StmtV,
)
    requires
        setting(t, cx),
        tracks(t, env, st, g),
        s is Assign || s is IndexAssign || s is FieldAssign,
        written(s),
        checked(t, ret, env, s).2 is Ok,
    ensures
        ({
            let (s1, env1, r) = checked(t, ret, env, s);
            let (out, st1) = arc_stmt(st, s1);
            goes_well(t, env1, st1, low_stmts(cx, g, out, 0))
        }),
{
    let (s1, env1, r) = checked(t, ret, env, s);
    let sc = env.scopes;
    match s {
        StmtV::Assign { name, value, line } => {
            reveal(checked_assign);
            reveal(low_assign);
            lemma_makes(t, cx, sc, g, value);
            reveal(sees);
            assert(lookup(sc, name) is Some);
        },
        StmtV::IndexAssign { target, index, value, line } => {
            reveal(checked_index_assign);
            reveal(low_index_assign);
            lemma_makes(t, cx, sc, g, target);
            let target1 = typed(t, sc, target).0;
            lemma_expr(cx, g, target1);
            if let Ok((g1, arr)) = low_expr(cx, g, target1) {
                lemma_makes(t, cx, sc, g1, index);
                let index1 = typed(t, sc, index).0;
                lemma_expr(cx, g1, index1);
                if let Ok((g2, i)) = low_expr(cx, g1, index1) {
                    lemma_makes(t, cx, sc, g2, value);
                }
            }
        },
        StmtV::FieldAssign { target, field, value, line } => {
            reveal(checked_field_assign);
            reveal(low_field_assign);
            lemma_makes(t, cx, sc, g, target);
            let target1 = typed(t, sc, target).0;
            assert(cx.structs == t.structs) by {
                reveal(agree);
            }
            lemma_expr(cx, g, target1);
            if let Ok((g1, base)) = low_expr(cx, g, target1) {
                lemma_makes(t, cx, sc, g1, value);
            }
        },
        _ => {},
    }
    lemma_one(cx, g, s1);
    lemma_simple(cx, g, s1);
}

// ----- names bound together ---------------------------------------------------------------------
/// The scopes with the first `n` names declared.
spec fn declared(sc: Scopes, names: Seq<Seq<char>>, types: Seq<Type>, n: nat) -> Scopes
    decreases n,
{
    if n == 0 {
        sc
    } else {
        declare(declared(sc, names, types, (n - 1) as nat), names[n - 1], types[n - 1])
    }
}

proof fn lemma_declared_len(sc: Scopes, names: Seq<Seq<char>>, types: Seq<Type>, n: nat)
    requires
        sc.len() > 0,
    ensures
        declared(sc, names, types, n).len() == sc.len(),
    decreases n,
{
    if n > 0 {
        lemma_declared_len(sc, names, types, (n - 1) as nat);
    }
}

proof fn lemma_bound_together(sc: Scopes, names: Seq<Seq<char>>, types: Seq<Type>, i: nat)
    requires
        i <= names.len(),
        bind_all(declared(sc, names, types, i), names, types, i as int).1 is None,
    ensures
        forall|k: int|
            i <= k < names.len() ==> is_new(
                declared(sc, names, types, k as nat),
                #[trigger] names[k],
            ),
        bind_all(declared(sc, names, types, i), names, types, i as int).0 == declared(
            sc,
            names,
            types,
            names.len(),
        ),
    decreases names.len() - i,
{
    if i < names.len() {
        assert(declared(sc, names, types, i + 1) == declare(
            declared(sc, names, types, i),
            names[i as int],
            types[i as int],
        ));
        lemma_bound_together(sc, names, types, i + 1);
    }
}

/// The bindings of an arm have slots.
#[verifier::rlimit(40)]
proof fn lemma_payload_sees(
    t: Tables,
    sc: Scopes,
    binds: Seq<BindingV>,
    g: Gen,
    base: Val,
    names: Seq<Seq<char>>,
    types: Seq<Type>,
    more: Seq<BindingV>,
    n: nat,
)
    requires
        ready(g),
        g.vars.len() > 0,
        sc.len() > 0,
        sees(t, sc, g.vars),
        held(binds, g.vars),
        bound_here(sc, g.vars),
        own_names(names),
        all_known(t.structs.len(), t.enums.len(), types),
        n <= names.len() == types.len() == more.len(),
        forall|k: int|
            0 <= k < names.len() ==> is_new(
                declared(sc, names, types, k as nat),
                #[trigger] names[k],
            ),
        forall|k: int| 0 <= k < names.len() ==> (#[trigger] more[k]).name == names[k],
    ensures
        ({
            let vars = bind_payload(g, base, names, types, n).vars;
            &&& sees(t, declared(sc, names, types, n), vars)
            &&& held(binds + more.take(n as int), vars)
            &&& bound_here(declared(sc, names, types, n), vars)
        }),
    decreases n,
{
    assert(binds + more.take(0) =~= binds);
    if n > 0 {
        let i = n - 1;
        lemma_payload_sees(t, sc, binds, g, base, names, types, more, i as nat);
        lemma_payload(g, base, names, types, i as nat);
        let g1 = bind_payload(g, base, names, types, i as nat);
        let gep = Ins::Gep(Ty::I64, base, Val::Int(n as i64));
        lemma_emit(g1, gep);
        let g2 = emit(g1, gep);
        let load = Ins::Load(ty_of(types[i]), reg(g2));
        lemma_emit(g2, load);
        let g3 = emit(g2, load);
        let v = reg(g3);
        lemma_retain(g3, v);
        let g4 = if types[i].heap() {
            retain(g3, v)
        } else {
            g3
        };
        let g5 = bind_var(g4, names[i], types[i], v);
        let slot = g4.code.len() as usize;
        assert(g5.vars == with_slot(g1.vars, names[i], slot, types[i]));
        lemma_declared_len(sc, names, types, i as nat);
        assert(own_name(names[i]));
        assert(more[i].name == names[i]);
        assert(known(t.structs.len(), t.enums.len(), types[i]));
        lemma_declares(
            t,
            declared(sc, names, types, i as nat),
            binds + more.take(i),
            g1.vars,
            names[i],
            slot,
            types[i],
            more[i].heap,
        );
        assert(binds + more.take(n as int) =~= (binds + more.take(i)).push(more[i]));
    }
}

proof fn lemma_checked_len(t: Tables, ret: Type, env: Env, b: Seq<StmtV>, i: int)
    requires
        0 <= i <= b.len(),
    ensures
        checked_stmts(t, ret, env, b, i).2 is Ok ==> checked_stmts(t, ret, env, b, i).0.len()
            == b.len() - i,
    decreases b.len() - i,
{
    if i < b.len() {
        lemma_checked_len(t, ret, checked(t, ret, env, b[i]).1, b, i + 1);
    }
}

/// The first of what is left.
pub(crate) proof fn lemma_skip<A>(all: Seq<A>, i: int, first: A, rest: Seq<A>)
    requires
        0 <= i < all.len(),
        all.skip(i) == seq![first] + rest,
    ensures
        all[i] == first,
        all.skip(i + 1) == rest,
{
    assert(all[i] == all.skip(i)[0]);
    assert(all.skip(i).len() == 1 + rest.len());
    assert forall|k: int| 0 <= k < rest.len() implies all.skip(i + 1)[k] == rest[k] by {
        assert(all.skip(i)[k + 1] == rest[k]);
    }
    assert(all.skip(i + 1) =~= rest);
}

/// A statement.
proof fn lemma_stmt_lowers(t: Tables, cx: Cx, ret: Type, env: Env, st: ArcV, g: Gen, s: StmtV)
    requires
        setting(t, cx),
        tracks(t, env, st, g),
        written(s),
        stmt_known(t.structs.len(), t.enums.len(), s),
        checked(t, ret, env, s).2 is Ok,
    ensures
        ({
            let (s1, env1, r) = checked(t, ret, env, s);
            let (out, st1) = arc_stmt(st, s1);
            goes_well(t, env1, st1, low_stmts(cx, g, out, 0))
        }),
    decreases s, 2nat,
{
    match s {
        StmtV::Let { .. } => {
            lemma_let_lowers(t, cx, ret, env, st, g, s);
        },
        StmtV::Assign { .. } => {
            lemma_store_lowers(t, cx, ret, env, st, g, s);
        },
        StmtV::IndexAssign { .. } => {
            lemma_store_lowers(t, cx, ret, env, st, g, s);
        },
        StmtV::FieldAssign { .. } => {
            lemma_store_lowers(t, cx, ret, env, st, g, s);
        },
        StmtV::Expr(e) => {
            lemma_expr_lowers(t, cx, ret, env, st, g, e);
        },
        StmtV::Return { value, line } => {
            lemma_return_lowers(t, cx, ret, env, st, g, value, line);
        },
        StmtV::If { .. } => {
            lemma_if_lowers(t, cx, ret, env, st, g, s);
        },
        StmtV::While { .. } => {
            lemma_while_lowers(t, cx, ret, env, st, g, s);
        },
        StmtV::For { .. } => {
            lemma_for_lowers(t, cx, ret, env, st, g, s);
        },
        StmtV::ForEach { .. } => {
            lemma_foreach_lowers(t, cx, ret, env, st, g, s);
        },
        StmtV::Match { .. } => {
            lemma_match_lowers(t, cx, ret, env, st, g, s);
        },
        StmtV::Break { .. } => {
            lemma_jump_lowers(t, cx, env, st, g, s);
        },
        StmtV::Continue { .. } => {
            lemma_jump_lowers(t, cx, env, st, g, s);
        },
        _ => {},
    }
}

/// The statements of a block from position `i` on; `b1` are those that the
/// analysis made of them.
proof fn lemma_stmts_lower(
    t: Tables,
    cx: Cx,
    ret: Type,
    env: Env,
    st: ArcV,
    g: Gen,
    b: Seq<StmtV>,
    b1: Seq<StmtV>,
    i: int,
)
    requires
        setting(t, cx),
        tracks(t, env, st, g),
        written_block(b),
        block_known(t.structs.len(), t.enums.len(), b),
        0 <= i <= b.len(),
        b1.len() == b.len(),
        checked_stmts(t, ret, env, b, i).2 is Ok,
        b1.skip(i) == checked_stmts(t, ret, env, b, i).0,
    ensures
        goes_well(
            t,
            checked_stmts(t, ret, env, b, i).1,
            arc_stmts(st, b1, i).1,
            low_stmts(cx, g, arc_stmts(st, b1, i).0, 0),
        ),
    decreases b, b.len() - i,
{
    if i < b.len() {
        let (s1, env1, r) = checked(t, ret, env, b[i]);
        let rest1 = checked_stmts(t, ret, env1, b, i + 1).0;
        lemma_skip(b1, i, s1, rest1);
        let (out, st1) = arc_stmt(st, s1);
        let rest = arc_stmts(st1, b1, i + 1).0;
        assert(written(b[i]));
        assert(stmt_known(t.structs.len(), t.enums.len(), b[i]));
        lemma_stmt_lowers(t, cx, ret, env, st, g, b[i]);
        lemma_concat(cx, g, out, rest);
        if let Ok(g1) = low_stmts(cx, g, out, 0) {
            if g1.open {
                lemma_stmts_lower(t, cx, ret, env1, st1, g1, b, b1, i + 1);
            }
        }
    }
}

/// A block in a scope of its own, up to its end.
proof fn lemma_inner_lowers(
    t: Tables,
    cx: Cx,
    ret: Type,
    env: Env,
    st: ArcV,
    g: Gen,
    b: Seq<StmtV>,
    from: nat,
)
    requires
        setting(t, cx),
        tracks(t, env, st, g),
        written_block(b),
        block_known(t.structs.len(), t.enums.len(), b),
        checked_block(t, ret, env, b).2 is Ok,
    ensures
        ({
            let out = arc_block(st, checked_block(t, ret, env, b).0, from).0;
            match low_stmts(cx, push_scope(g), out, 0) {
                Err(m) => left_over(m),
                Ok(g1) => g1.open ==> fresh_start(g1) && within(g.vars, g1.vars),
            }
        }),
    decreases b, b.len() + 1,
{
    let env0 = Env { scopes: pushed(env.scopes), ..env };
    let g0 = push_scope(g);
    lemma_sees_push_vars(t, env.scopes, g.vars);
    lemma_sees_push(t, env.scopes, g0.vars);
    lemma_within_push(g.vars);
    lemma_held_within(st.binds, g.vars, g0.vars);
    lemma_bound_push(env0.scopes, g.vars);
    assert(tracks(t, env0, st, g0));
    let b1 = checked_stmts(t, ret, env0, b, 0).0;
    lemma_checked_len(t, ret, env0, b, 0);
    assert(b1.skip(0) =~= b1);
    lemma_stmts_lower(t, cx, ret, env0, st, g0, b, b1, 0);
    let (out0, st1) = arc_stmts(st, b1, 0);
    let out = arc_block(st, b1, from).0;
    let n = st1.binds.len();
    lemma_concat(cx, g0, out0, drops(st1.binds, from, n));
    if let Ok(g1) = low_stmts(cx, g0, out0, 0) {
        if g1.open {
            lemma_drops(cx, g1, st1.binds, from, n);
        }
    }
    lemma_stmts(cx, g0, out, 0);
    lemma_push_pop(g);
    if let Ok(g2) = low_stmts(cx, g0, out, 0) {
        lemma_within_last(g2.vars);
    }
}

/// A block.
proof fn lemma_block_lowers(
    t: Tables,
    cx: Cx,
    ret: Type,
    env: Env,
    st: ArcV,
    g: Gen,
    b: Seq<StmtV>,
    from: nat,
)
    requires
        setting(t, cx),
        tracks(t, env, st, g),
        written_block(b),
        block_known(t.structs.len(), t.enums.len(), b),
        checked_block(t, ret, env, b).2 is Ok,
    ensures
        low_block(cx, g, arc_block(st, checked_block(t, ret, env, b).0, from).0) matches Err(
            m,
        ) ==> left_over(m),
        checked_block(t, ret, env, b).1 == env,
    decreases b, b.len() + 2,
{
    lemma_inner_lowers(t, cx, ret, env, st, g, b, from);
    lemma_block_scopes(t, ret, env, b);
}

/// The body of a loop.
proof fn lemma_body_lowers(
    t: Tables,
    cx: Cx,
    ret: Type,
    env: Env,
    st: ArcV,
    g: Gen,
    b: Seq<StmtV>,
    from: nat,
    next: Label,
    end: Label,
)
    requires
        setting(t, cx),
        tracks(t, env, st, g),
        written_block(b),
        block_known(t.structs.len(), t.enums.len(), b),
        checked_loop(t, ret, env, b).2 is Ok,
    ensures
        low_body(
            cx,
            g,
            arc_block(st, checked_loop(t, ret, env, b).0, from).0,
            next,
            end,
        ) matches Err(m) ==> left_over(m),
        checked_loop(t, ret, env, b).1 == env,
    decreases b, b.len() + 3,
{
    let env0 = Env { in_loop: true, ..env };
    let g0 = Gen { loops: g.loops.push((next, end)), ..g };
    assert(tracks(t, env0, st, g0));
    lemma_block_lowers(t, cx, ret, env0, st, g0, b, from);
    lemma_loop_scopes(t, ret, env, b);
}

// ----- statements with blocks --------------------------------------------------------------------
/// A condition.
proof fn lemma_cond_lowers(
    t: Tables,
    cx: Cx,
    env: Env,
    st: ArcV,
    g: Gen,
    cond: ExprV,
    what: Seq<char>,
)
    requires
        setting(t, cx),
        tracks(t, env, st, g),
        written_expr(cond),
        typed_as(t, env.scopes, cond, Type::Bool, what).1 is Ok,
    ensures
        match low_cond(cx, g, typed_as(t, env.scopes, cond, Type::Bool, what).0) {
            Err(m) => left_over(m),
            Ok((g1, c)) => tracks(t, env, st, g1) && g1.vars == g.vars && g1.loops == g.loops,
        },
{
    lemma_makes(t, cx, env.scopes, g, cond);
    reveal(low_cond);
    lemma_cond(cx, g, typed(t, env.scopes, cond).0);
}

proof fn lemma_if_lowers(t: Tables, cx: Cx, ret: Type, env: Env, st: ArcV, g: Gen, s: StmtV)
    requires
        setting(t, cx),
        tracks(t, env, st, g),
        s is If,
        written(s),
        stmt_known(t.structs.len(), t.enums.len(), s),
        checked(t, ret, env, s).2 is Ok,
    ensures
        ({
            let (s1, env1, r) = checked(t, ret, env, s);
            let (out, st1) = arc_stmt(st, s1);
            goes_well(t, env1, st1, low_stmts(cx, g, out, 0))
        }),
    decreases s, 1nat,
{
    let (s1, env1, r) = checked(t, ret, env, s);
    assert(checked(t, ret, env, s) == checked_if(t, ret, env, s));
    let (out, st1) = arc_stmt(st, s1);
    if let StmtV::If { cond, then_block, else_block } = s {
        let what = "if condition must be bool, found "@;
        let cond1 = typed_as(t, env.scopes, cond, Type::Bool, what).0;
        lemma_cond_lowers(t, cx, env, st, g, cond, what);
        let then1 = checked_block(t, ret, env, then_block).0;
        lemma_block_scopes(t, ret, env, then_block);
        let n = st.binds.len();
        let (then2, tmp1) = arc_block(st, then1, n);
        let sta = ArcV { tmp: tmp1, ..st };
        let s2 = out[0];
        lemma_one(cx, g, s2);
        lemma_if(cx, g, s2);
        if let Some(b) = else_block {
            lemma_block_scopes(t, ret, env, b);
            assert(out =~= seq![s2]);
        } else {
            assert(out =~= seq![s2]);
        }
        assert(env1 == env && st1.binds == st.binds);
        if let Ok((g1, c)) = low_cond(cx, g, cond1) {
            let yes = label(g1, Mark::Then);
            let end = label(g1, Mark::EndIf);
            let no = if else_block is Some {
                label(g1, Mark::Else)
            } else {
                end
            };
            lemma_emit(g1, Ins::CondBr(c, yes, no));
            lemma_begin(emit(g1, Ins::CondBr(c, yes, no)), yes);
            let g2 = begin(emit(g1, Ins::CondBr(c, yes, no)), yes);
            lemma_block_lowers(
                t,
                cx,
                ret,
                env,
                st,
                g2,
                then_block,
                n,
            );
            lemma_block(cx, g2, then2);
            if let Ok(g3) = low_block(cx, g2, then2) {
                lemma_branch_if_open(g3, end);
                let g4 = branch_if_open(g3, end);
                if let Some(b) = else_block {
                    lemma_begin(g4, no);
                    let g5 = begin(g4, no);
                    assert(tracks(t, env, sta, g5));
                    lemma_block_lowers(
                        t,
                        cx,
                        ret,
                        env,
                        sta,
                        g5,
                        b,
                        n,
                    );
                }
            }
        }
        assert(low_stmt(cx, g, s2) == low_if(cx, g, s2));
    }
}

proof fn lemma_while_lowers(t: Tables, cx: Cx, ret: Type, env: Env, st: ArcV, g: Gen, s: StmtV)
    requires
        setting(t, cx),
        tracks(t, env, st, g),
        s is While,
        written(s),
        stmt_known(t.structs.len(), t.enums.len(), s),
        checked(t, ret, env, s).2 is Ok,
    ensures
        ({
            let (s1, env1, r) = checked(t, ret, env, s);
            let (out, st1) = arc_stmt(st, s1);
            goes_well(t, env1, st1, low_stmts(cx, g, out, 0))
        }),
    decreases s, 1nat,
{
    let (s1, env1, r) = checked(t, ret, env, s);
    assert(checked(t, ret, env, s) == checked_while(t, ret, env, s));
    let (out, st1) = arc_stmt(st, s1);
    if let StmtV::While { cond, body } = s {
        let what = "while condition must be bool, found "@;
        let cond1 = typed_as(t, env.scopes, cond, Type::Bool, what).0;
        let body1 = checked_loop(t, ret, env, body).0;
        lemma_loop_scopes(t, ret, env, body);
        let n = st.binds.len();
        let sti = ArcV { around: n, ..st };
        let body2 = arc_block(sti, body1, n).0;
        let s2 = StmtV::While { cond: cond1, body: body2 };
        assert(out =~= seq![s2]);
        lemma_one(cx, g, s2);
        lemma_while(cx, g, s2);
        let test = label(g, Mark::LoopCond);
        let inside = label(g, Mark::LoopBody);
        let end = label(g, Mark::LoopEnd);
        lemma_emit(g, Ins::Br(test));
        lemma_begin(emit(g, Ins::Br(test)), test);
        let g1 = begin(emit(g, Ins::Br(test)), test);
        lemma_cond_lowers(t, cx, env, st, g1, cond, what);
        if let Ok((g2, c)) = low_cond(cx, g1, cond1) {
            lemma_emit(g2, Ins::CondBr(c, inside, end));
            lemma_begin(emit(g2, Ins::CondBr(c, inside, end)), inside);
            let g3 = begin(emit(g2, Ins::CondBr(c, inside, end)), inside);
            assert(tracks(t, env, sti, g3));
            lemma_body_lowers(t, cx, ret, env, sti, g3, body, n, test, end);
        }
        assert(low_stmt(cx, g, s2) == low_while(cx, g, s2));
    }
}

proof fn lemma_for_lowers(t: Tables, cx: Cx, ret: Type, env: Env, st: ArcV, g: Gen, s: StmtV)
    requires
        setting(t, cx),
        tracks(t, env, st, g),
        s is For,
        written(s),
        stmt_known(t.structs.len(), t.enums.len(), s),
        checked(t, ret, env, s).2 is Ok,
    ensures
        ({
            let (s1, env1, r) = checked(t, ret, env, s);
            let (out, st1) = arc_stmt(st, s1);
            goes_well(t, env1, st1, low_stmts(cx, g, out, 0))
        }),
    decreases s, 1nat,
{
    let (s1, env1, r) = checked(t, ret, env, s);
    assert(checked(t, ret, env, s) == checked_range(t, ret, env, s));
    let (out, st1) = arc_stmt(st, s1);
    if let StmtV::For { var, start, end, body, line } = s {
        let sc = env.scopes;
        let start1 = typed(t, sc, start).0;
        let end1 = typed(t, sc, end).0;
        let body1 = checked_for(t, ret, env, var, Type::Int, body).0;
        lemma_for_scopes(t, ret, env, var, Type::Int, body);
        let n = st.binds.len();
        let none = Seq::<BindingV>::empty();
        let sti = inside(st, none, BindingV { name: var, heap: false });
        let body2 = arc_block(sti, body1, n).0;
        let s2 = StmtV::For { var, start: start1, end: end1, body: body2, line };
        assert(out =~= seq![s2]);
        lemma_one(cx, g, s2);
        lemma_for(cx, g, s2);
        lemma_makes(t, cx, sc, g, start);
        lemma_expr(cx, g, start1);
        if let Ok((g1, from)) = low_expr(cx, g, start1) {
            lemma_makes(t, cx, sc, g1, end);
            lemma_expr(cx, g1, end1);
            if let Ok((g2, to)) = low_expr(cx, g1, end1) {
                lemma_flush_all(g2);
                let before = push_scope(flush(g2, 0));
                let slot = before.code.len() as usize;
                lemma_bind_var(before, var, Type::Int, from.0);
                let g3 = bind_var(before, var, Type::Int, from.0);
                let env3 = Env { scopes: declare(pushed(sc), var, Type::Int), ..env };
                assert(before.vars == g.vars.push(Map::empty()));
                assert(g3.vars == with_slot(before.vars, var, slot, Type::Int));
                lemma_enters(t, env, st, g, before, g3, var, slot, Type::Int, false);
                assert(st.binds + none =~= st.binds);
                let test = label(g3, Mark::ForCond);
                let inside = label(g3, Mark::ForBody);
                let next = label(g3, Mark::ForInc);
                let after = label(g3, Mark::ForEnd);
                lemma_emit(g3, Ins::Br(test));
                lemma_begin(emit(g3, Ins::Br(test)), test);
                let g4 = begin(emit(g3, Ins::Br(test)), test);
                let load = Ins::Load(Ty::I64, Val::Reg(slot));
                lemma_emit(g4, load);
                let g5 = emit(g4, load);
                let less = Ins::Cmp(crate::ir::Pred::Slt, Ty::I64, reg(g5), to.0);
                lemma_emit(g5, less);
                let g6 = emit(g5, less);
                let branch = Ins::CondBr(reg(g6), inside, after);
                lemma_emit(g6, branch);
                lemma_begin(emit(g6, branch), inside);
                let g7 = begin(emit(g6, branch), inside);
                assert(tracks(t, env3, sti, g7));
                lemma_body_lowers(t, cx, ret, env3, sti, g7, body, n, next, after);
            }
        }
        assert(low_stmt(cx, g, s2) == low_for(cx, g, s2));
    }
}

/// The variable of a loop, in a scope of its own.
proof fn lemma_enters(
    t: Tables,
    env: Env,
    st: ArcV,
    g: Gen,
    before: Gen,
    g3: Gen,
    var: Seq<char>,
    slot: usize,
    ty: Type,
    heap: bool,
)
    requires
        tracks(t, env, st, g),
        before.vars == g.vars.push(Map::empty()),
        g3.vars == with_slot(before.vars, var, slot, ty),
        own_name(var),
        known(t.structs.len(), t.enums.len(), ty),
    ensures
        sees(t, declare(pushed(env.scopes), var, ty), g3.vars),
        held(st.binds.push(BindingV { name: var, heap }), g3.vars),
        bound_here(declare(pushed(env.scopes), var, ty), g3.vars),
{
    let sc = pushed(env.scopes);
    lemma_sees_push_vars(t, env.scopes, g.vars);
    lemma_sees_push(t, env.scopes, before.vars);
    lemma_within_push(g.vars);
    lemma_held_within(st.binds, g.vars, before.vars);
    lemma_bound_push(sc, g.vars);
    lemma_declares(t, sc, st.binds, before.vars, var, slot, ty, heap);
}

/// The variable of a loop over an array, and the array that the loop holds.
proof fn lemma_enters_each(
    t: Tables,
    env: Env,
    st: ArcV,
    g: Gen,
    before: Gen,
    ga: Gen,
    var: Seq<char>,
    slot: usize,
    ty: Type,
    iterable: ExprV,
    arr: Val,
)
    requires
        tracks(t, env, st, g),
        ready(ga),
        before.vars == g.vars.push(Map::empty()),
        ga.vars == with_slot(before.vars, var, slot, ty),
        own_name(var),
        known(t.structs.len(), t.enums.len(), ty),
        iterable.ty is Some,
    ensures
        ({
            let g1 = low_hold(ga, var, iterable, arr);
            let elem = BindingV { name: var, heap: heap_elem(iterable.ty) };
            let sc = declare(pushed(env.scopes), var, ty);
            &&& sees(t, sc, g1.vars)
            &&& held(inside(st, held_bindings(var, iterable), elem).binds, g1.vars)
            &&& bound_here(sc, g1.vars)
        }),
{
    reveal(low_hold);
    let g1 = low_hold(ga, var, iterable, arr);
    let elem = BindingV { name: var, heap: heap_elem(iterable.ty) };
    let sc = declare(pushed(env.scopes), var, ty);
    let binds = st.binds.push(elem);
    lemma_enters(t, env, st, g, before, ga, var, slot, ty, elem.heap);
    if owns_iterable(iterable) {
        let name = holder(var);
        let array = BindingV { name, heap: true };
        let at = ga.code.len() as usize;
        let aty = iterable.ty->0;
        lemma_bind_var(ga, name, aty, arr);
        assert(g1.vars == with_slot(ga.vars, name, at, aty));
        lemma_holder_named(var);
        lemma_sees_temp(t, sc, ga.vars, name, at, aty);
        lemma_bound_temp(sc, ga.vars, name, at, aty);
        assert(!ga.vars.last().contains_key(name));
        lemma_held_bind(binds, ga.vars, array, at, aty);
        // The order of the two does not matter.
        let both = (st.binds + seq![array]).push(elem);
        reveal(held);
        assert(both.drop_last() =~= st.binds.push(array));
        assert(st.binds.push(array).drop_last() =~= st.binds);
        assert(binds.push(array).drop_last() =~= binds);
        assert(binds.drop_last() =~= st.binds);
        assert forall|n: Seq<char>| #[trigger] level(both, n) <= depth(g1.vars, n) by {
            assert(level(both, n) == level(st.binds.push(array), n) + (if var == n {
                1nat
            } else {
                0
            }));
            assert(level(both, n) == level(st.binds, n) + (if name == n {
                1nat
            } else {
                0
            }) + (if var == n {
                1nat
            } else {
                0
            }));
            assert(level(binds.push(array), n) <= depth(g1.vars, n));
            assert(level(binds, n) == level(st.binds, n) + (if var == n {
                1nat
            } else {
                0
            }));
        }
        assert forall|i: int| 0 <= i < both.len() && (#[trigger] both[i]).heap implies primes(
            both[i].name,
        ) == 0 by {
            if i < st.binds.len() {
                assert(both[i] == binds.push(array)[i]);
            } else if i == st.binds.len() {
                assert(both[i] == array);
            } else {
                lemma_own_unprimed(var);
            }
        }
        assert(inside(st, held_bindings(var, iterable), elem).binds =~= both);
    } else {
        assert(inside(st, held_bindings(var, iterable), elem).binds =~= binds);
    }
}

#[verifier::rlimit(60)]
proof fn lemma_foreach_lowers(t: Tables, cx: Cx, ret: Type, env: Env, st: ArcV, g: Gen, s: StmtV)
    requires
        setting(t, cx),
        tracks(t, env, st, g),
        s is ForEach,
        written(s),
        stmt_known(t.structs.len(), t.enums.len(), s),
        checked(t, ret, env, s).2 is Ok,
    ensures
        ({
            let (s1, env1, r) = checked(t, ret, env, s);
            let (out, st1) = arc_stmt(st, s1);
            goes_well(t, env1, st1, low_stmts(cx, g, out, 0))
        }),
    decreases s, 1nat,
{
    let (s1, env1, r) = checked(t, ret, env, s);
    assert(checked(t, ret, env, s) == checked_each(t, ret, env, s));
    let (out, st1) = arc_stmt(st, s1);
    if let StmtV::ForEach { var, iterable, body, line } = s {
        let sc = env.scopes;
        let (iterable1, ri) = typed(t, sc, iterable);
        let elem = ri->Ok_0.elem()->0;
        let body1 = checked_for(t, ret, env, var, elem, body).0;
        lemma_for_scopes(t, ret, env, var, elem, body);
        lemma_makes(t, cx, sc, g, iterable);
        let held = held_bindings(var, iterable1);
        let n = st.binds.len() + held.len();
        let sti = inside(st, held, BindingV { name: var, heap: heap_elem(iterable1.ty) });
        let body2 = arc_block(sti, body1, n).0;
        let s2 = StmtV::ForEach { var, iterable: iterable1, body: body2, line };
        assert(out =~= seq![s2]);
        lemma_one(cx, g, s2);
        lemma_foreach(cx, g, s2);
        lemma_expr(cx, g, iterable1);
        if let Ok((g1, arr)) = low_expr(cx, g, iterable1) {
            lemma_keep_alive(g, g1, arr.0);
            let (g2, fresh) = keep_alive(g1, g.temps.len(), arr.0);
            let at = g2.code.len() as usize;
            let slot = (g2.code.len() + 2) as usize;
            let ga = foreach_slots(g2, var, elem);
            let g3 = low_hold(ga, var, iterable1, arr.0);
            let test = label(g3, Mark::ForeachCond);
            let inside = label(g3, Mark::ForeachBody);
            let next = label(g3, Mark::ForeachInc);
            let after = label(g3, Mark::ForeachEnd);
            lemma_foreach_pieces(g2, var, elem, arr.0, at, slot, inside, after);
            assert(ga.vars == with_slot(push_scope(g2).vars, var, slot, elem)) by {
                reveal(foreach_slots);
            }
            let env3 = Env { scopes: declare(pushed(sc), var, elem), ..env };
            lemma_hold(ga, var, iterable1, arr.0);
            lemma_enters_each(
                t,
                env,
                st,
                g,
                push_scope(g2),
                ga,
                var,
                slot,
                elem,
                iterable1,
                arr.0,
            );
            lemma_emit(g3, Ins::Br(test));
            lemma_begin(emit(g3, Ins::Br(test)), test);
            let g4 = begin(emit(g3, Ins::Br(test)), test);
            lemma_foreach_pieces(g4, var, elem, arr.0, at, slot, inside, after);
            let tested = foreach_test(g4, arr.0, at, inside, after);
            lemma_begin(tested, inside);
            let g5 = begin(tested, inside);
            lemma_foreach_pieces(g5, var, elem, arr.0, at, slot, inside, after);
            let g6 = foreach_take(g5, arr.0, at, slot, elem);
            assert(tracks(t, env3, sti, g6));
            lemma_body_lowers(t, cx, ret, env3, sti, g6, body, n, next, after);
        }
        assert(low_stmt(cx, g, s2) == low_foreach(cx, g, s2));
    }
}

// ----- matches -----------------------------------------------------------------------------------
/// One arm.
proof fn lemma_arm_lowers(
    t: Tables,
    cx: Cx,
    ret: Type,
    env: Env,
    st: ArcV,
    g: Gen,
    def: EnumV,
    arm: ArmV,
    covered: Seq<bool>,
    wild: bool,
    line: usize,
    base: Val,
    tag: Val,
    fresh: bool,
    end: Label,
)
    requires
        setting(t, cx),
        tracks(t, env, st, g),
        written_arm(arm),
        crate::typing::arm_known(t.structs.len(), t.enums.len(), arm),
        enum_known(t.structs.len(), t.enums.len(), def),
        checked_arm(t, ret, env, def, arm, covered, wild, line).2 is Ok,
    ensures
        ({
            let arm1 = checked_arm(t, ret, env, def, arm, covered, wild, line).0;
            let arm2 = arc_arm(st, arm1).0;
            low_arm(cx, g, def, arm2, base, tag, fresh, end) matches Err(m) ==> left_over(m)
        }),
    decreases arm, 0nat,
{
    let arm1 = checked_arm(t, ret, env, def, arm, covered, wild, line).0;
    let arm2 = arc_arm(st, arm1).0;
    reveal(pattern_place);
    match arm.pattern {
        PatternV::Wildcard => {
            lemma_arm_test(g, tag, None);
            let g1 = arm_test(g, tag, None).0;
            let g2 = push_scope(g1);
            assert(bind_payload(g2, base, Seq::empty(), Seq::empty(), 0) == g2);
            lemma_retain(g2, base);
            let g3 = if fresh {
                release(g2, base)
            } else {
                g2
            };
            lemma_sees_push_vars(t, env.scopes, g.vars);
            lemma_within_push(g.vars);
            lemma_held_within(st.binds, g.vars, g3.vars);
            lemma_bound_push(env.scopes, g.vars);
            assert(st.binds + Seq::<BindingV>::empty() =~= st.binds);
            assert(tracks(t, env, st, g3));
            lemma_block_lowers(
                t,
                cx,
                ret,
                env,
                st,
                g3,
                arm.body,
                st.binds.len(),
            );
        },
        PatternV::Variant { name, bindings, types } => {
            let v = def.variant_of(name)->0;
            crate::soundness::lemma_variant_bound(def.variants, name, 0);
            let fields = def.variants[v].fields;
            lemma_arm_test(g, tag, Some(v));
            let g1 = arm_test(g, tag, Some(v)).0;
            let g2 = push_scope(g1);
            lemma_sees_push_vars(t, env.scopes, g.vars);
            lemma_sees_push(t, env.scopes, g2.vars);
            assert(all_known(t.structs.len(), t.enums.len(), fields));
            let sc = pushed(env.scopes);
            let more = arm_bindings(arm1.pattern);
            lemma_bound_push(sc, g.vars);
            lemma_within_push(g.vars);
            lemma_held_within(st.binds, g.vars, g2.vars);
            lemma_bound_together(sc, bindings, fields, 0);
            lemma_payload_sees(
                t,
                sc,
                st.binds,
                g2,
                base,
                bindings,
                fields,
                more,
                bindings.len(),
            );
            assert(more.take(bindings.len() as int) =~= more);
            lemma_payload(g2, base, bindings, fields, bindings.len());
            let g3 = bind_payload(g2, base, bindings, fields, bindings.len());
            let scopes1 = bind_all(pushed(env.scopes), bindings, fields, 0).0;
            lemma_declared_len(pushed(env.scopes), bindings, fields, bindings.len());
            lemma_retain(g3, base);
            let g4 = if fresh {
                release(g3, base)
            } else {
                g3
            };
            let env4 = Env { scopes: scopes1, ..env };
            let st4 = ArcV { binds: st.binds + more, ..st };
            assert(tracks(t, env4, st4, g4));
            lemma_block_lowers(
                t,
                cx,
                ret,
                env4,
                st4,
                g4,
                arm.body,
                st.binds.len(),
            );
        },
    }
}

/// The arms from position `i` on; `arms1` are those that the analysis made of
/// them, `arms2` those that the counting made of these.
proof fn lemma_arms_lower(
    t: Tables,
    cx: Cx,
    ret: Type,
    env: Env,
    st: ArcV,
    g: Gen,
    def: EnumV,
    arms: Seq<ArmV>,
    arms1: Seq<ArmV>,
    arms2: Seq<ArmV>,
    i: int,
    covered: Seq<bool>,
    wild: bool,
    line: usize,
    base: Val,
    tag: Val,
    fresh: bool,
    end: Label,
    falls: bool,
)
    requires
        setting(t, cx),
        tracks(t, env, st, g),
        written_arms(arms),
        crate::typing::arms_known(t.structs.len(), t.enums.len(), arms),
        enum_known(t.structs.len(), t.enums.len(), def),
        0 <= i <= arms.len(),
        arms1.len() == arms.len(),
        arms2.len() == arms.len(),
        checked_arms(t, ret, env, def, arms, i, covered, wild, line).2 is Ok,
        arms1.skip(i) == checked_arms(t, ret, env, def, arms, i, covered, wild, line).0,
        arms2.skip(i) == arc_arms(st, arms1, i).0,
    ensures
        low_arms(cx, g, def, arms2, i, base, tag, fresh, end, falls) matches Err(m)
            ==> left_over(m),
    decreases arms, arms.len() - i,
{
    if i < arms.len() {
        let (arm1, env1, r) = checked_arm(t, ret, env, def, arms[i], covered, wild, line);
        let covered1 = covering(def, covered, arms[i]);
        let wild1 = wild || arms[i].pattern is Wildcard;
        let rest1 = checked_arms(t, ret, env1, def, arms, i + 1, covered1, wild1, line).0;
        assert(written_arm(arms[i]));
        assert(crate::typing::arm_known(t.structs.len(), t.enums.len(), arms[i]));
        lemma_arm_scopes(t, ret, env, def, arms[i], covered, wild, line);
        lemma_skip(arms1, i, arm1, rest1);
        let (arm2, tmp1) = arc_arm(st, arm1);
        let st1 = ArcV { tmp: tmp1, ..st };
        let rest2 = arc_arms(st1, arms1, i + 1).0;
        lemma_skip(arms2, i, arm2, rest2);
        lemma_arm_lowers(
            t,
            cx,
            ret,
            env,
            st,
            g,
            def,
            arms[i],
            covered,
            wild,
            line,
            base,
            tag,
            fresh,
            end,
        );
        crate::shape::lemma_arm(cx, g, def, arm2, base, tag, fresh, end);
        if let Ok((g1, open)) = low_arm(cx, g, def, arm2, base, tag, fresh, end) {
            assert(tracks(t, env1, st1, g1));
            lemma_arms_lower(
                t,
                cx,
                ret,
                env1,
                st1,
                g1,
                def,
                arms,
                arms1,
                arms2,
                i + 1,
                covered1,
                wild1,
                line,
                base,
                tag,
                fresh,
                end,
                falls || open,
            );
        }
    }
}

proof fn lemma_arms_len(
    t: Tables,
    ret: Type,
    env: Env,
    def: EnumV,
    arms: Seq<ArmV>,
    i: int,
    covered: Seq<bool>,
    wild: bool,
    line: usize,
)
    requires
        0 <= i <= arms.len(),
    ensures
        checked_arms(t, ret, env, def, arms, i, covered, wild, line).2 is Ok ==> checked_arms(
            t,
            ret,
            env,
            def,
            arms,
            i,
            covered,
            wild,
            line,
        ).0.len() == arms.len() - i,
    decreases arms.len() - i,
{
    if i < arms.len() {
        lemma_arms_len(
            t,
            ret,
            checked_arm(t, ret, env, def, arms[i], covered, wild, line).1,
            def,
            arms,
            i + 1,
            covering(def, covered, arms[i]),
            wild || arms[i].pattern is Wildcard,
            line,
        );
    }
}

proof fn lemma_counted_arms_len(st: ArcV, arms: Seq<ArmV>, i: int)
    requires
        0 <= i <= arms.len(),
    ensures
        arc_arms(st, arms, i).0.len() == arms.len() - i,
    decreases arms.len() - i,
{
    if i < arms.len() {
        lemma_counted_arms_len(ArcV { tmp: arc_arm(st, arms[i]).1, ..st }, arms, i + 1);
    }
}

proof fn lemma_match_lowers(t: Tables, cx: Cx, ret: Type, env: Env, st: ArcV, g: Gen, s: StmtV)
    requires
        setting(t, cx),
        tracks(t, env, st, g),
        s is Match,
        written(s),
        stmt_known(t.structs.len(), t.enums.len(), s),
        checked(t, ret, env, s).2 is Ok,
    ensures
        ({
            let (s1, env1, r) = checked(t, ret, env, s);
            let (out, st1) = arc_stmt(st, s1);
            goes_well(t, env1, st1, low_stmts(cx, g, out, 0))
        }),
    decreases s, 1nat,
{
    let (s1, env1, r) = checked(t, ret, env, s);
    assert(checked(t, ret, env, s) == checked_match(t, ret, env, s));
    let (out, st1) = arc_stmt(st, s1);
    if let StmtV::Match { scrutinee, arms, line } = s {
        let sc = env.scopes;
        let (scrutinee1, rs) = typed(t, sc, scrutinee);
        lemma_makes(t, cx, sc, g, scrutinee);
        if let Type::Enum(id) = rs->Ok_0 {
            assert(cx.enums == t.enums) by {
                reveal(agree);
            }
            let def = t.enums[id as int];
            assert(enum_known(t.structs.len(), t.enums.len(), def)) by {
                reveal(tables_known);
            }
            let none = Seq::new(def.variants.len(), |i: int| false);
            let arms1 = checked_arms(t, ret, env, def, arms, 0, none, false, line).0;
            lemma_arms_len(t, ret, env, def, arms, 0, none, false, line);
            crate::soundness::lemma_arms_scopes(t, ret, env, def, arms, 0, none, false, line);
            let arms2 = arc_arms(st, arms1, 0).0;
            lemma_counted_arms_len(st, arms1, 0);
            assert(arms1.skip(0) =~= arms1);
            assert(arms2.skip(0) =~= arms2);
            let s2 = StmtV::Match { scrutinee: scrutinee1, arms: arms2, line };
            assert(out =~= seq![s2]);
            lemma_one(cx, g, s2);
            lemma_match(cx, g, s2);
            lemma_expr(cx, g, scrutinee1);
            if let Ok((g1, base)) = low_expr(cx, g, scrutinee1) {
                lemma_keep_alive(g, g1, base.0);
                let (g2, fresh) = keep_alive(g1, g.temps.len(), base.0);
                let end = label(g2, Mark::MatchEnd);
                let load = Ins::Load(Ty::I64, base.0);
                lemma_emit(g2, load);
                let g3 = emit(g2, load);
                assert(tracks(t, env, st, g3));
                lemma_arms_lower(
                    t,
                    cx,
                    ret,
                    env,
                    st,
                    g3,
                    def,
                    arms,
                    arms1,
                    arms2,
                    0,
                    none,
                    false,
                    line,
                    base.0,
                    reg(g3),
                    fresh,
                    end,
                    false,
                );
            }
            assert(low_stmt(cx, g, s2) == low_match(cx, g, s2));
        }
    }
}

// ----- functions ---------------------------------------------------------------------------------
/// Whether a function is one that a program is written with.
pub open spec fn written_function(f: FunctionV) -> bool {
    own_names(param_names(f)) && written_block(f.body)
}

/// The error of a function whose end may be reached.
pub open spec fn may_end(f: FunctionV) -> Seq<char> {
    "function `"@ + f.name + "` may end without returning a "@ + f.ret.shown() + " value"@
}

spec fn all_types(f: FunctionV) -> Seq<Type> {
    let params = all_params(f);
    Seq::new(params.len(), |i: int| params[i].ty)
}

/// The parameters of a function have slots.
proof fn lemma_params_see(t: Tables, g: Gen, f: FunctionV, n: nat)
    requires
        ready(g),
        g.vars == seq![Map::<Seq<char>, (usize, Type)>::empty()],
        own_names(param_names(f)),
        all_known(t.structs.len(), t.enums.len(), all_types(f)),
        n <= all_params(f).len(),
        forall|k: int|
            0 <= k < all_params(f).len() ==> is_new(
                declared(seq![Map::empty()], param_names(f), all_types(f), k as nat),
                #[trigger] param_names(f)[k],
            ),
    ensures
        ({
            let sc = declared(seq![Map::empty()], param_names(f), all_types(f), n);
            let g1 = crate::lowering::bind_params(g, all_params(f), n);
            &&& sc.len() == 1
            &&& g1.vars.len() == 1
            &&& ready(g1)
            &&& g1.loops == g.loops
            &&& g1.temps == g.temps
            &&& sees(t, sc, g1.vars)
            &&& held(param_bindings(f).take(n as int), g1.vars)
            &&& bound_here(sc, g1.vars)
        }),
    decreases n,
{
    let start: Scopes = seq![Map::empty()];
    let names = param_names(f);
    let types = all_types(f);
    lemma_declared_len(start, names, types, n);
    if n == 0 {
        let none = param_bindings(f).take(0);
        assert(held(none, g.vars)) by {
            reveal(held);
            assert(none.len() == 0);
        }
        assert(bound_here(start, g.vars)) by {
            reveal(bound_here);
        }
        assert(sees(t, start, g.vars)) by {
            reveal(sees);
            reveal_with_fuel(lookup, 2);
            assert(start.drop_last() =~= Seq::empty());
        }
    } else {
        let i = (n - 1) as nat;
        lemma_params_see(t, g, f, i);
        let g1 = crate::lowering::bind_params(g, all_params(f), i);
        let p = all_params(f)[i as int];
        let slot = g1.code.len() as usize;
        lemma_bind_var(g1, p.name, p.ty, Val::Param(i as usize));
        let g2 = bind_var(g1, p.name, p.ty, Val::Param(i as usize));
        assert(g2.vars == with_slot(g1.vars, p.name, slot, p.ty));
        assert(names[i as int] == p.name && types[i as int] == p.ty);
        lemma_declared_len(start, names, types, i);
        let binds = param_bindings(f);
        assert(own_name(names[i as int]));
        lemma_declares(
            t,
            declared(start, names, types, i),
            binds.take(i as int),
            g1.vars,
            p.name,
            slot,
            p.ty,
            p.ty.heap(),
        );
        assert(binds.take(n as int) =~= binds.take(i as int).push(binds[i as int]));
    }
}

/// The analysis declares the parameters in the same order.
proof fn lemma_params_declared(f: FunctionV, i: nat)
    requires
        i <= f.params.len(),
        ({
            let r = (all_params(f).len() - f.params.len()) as nat;
            let sc = declared(seq![Map::empty()], param_names(f), all_types(f), r + i);
            crate::typing::bind_params(sc, f.params, i as int).1 is None
        }),
    ensures
        ({
            let r = (all_params(f).len() - f.params.len()) as nat;
            let sc = declared(seq![Map::empty()], param_names(f), all_types(f), r + i);
            crate::typing::bind_params(sc, f.params, i as int).0 == declared(
                seq![Map::empty()],
                param_names(f),
                all_types(f),
                all_params(f).len(),
            )
        }),
        forall|k: int|
            all_params(f).len() - f.params.len() + i <= k < all_params(f).len() ==> is_new(
                declared(seq![Map::empty()], param_names(f), all_types(f), k as nat),
                #[trigger] param_names(f)[k],
            ),
    decreases f.params.len() - i,
{
    let r = (all_params(f).len() - f.params.len()) as nat;
    if i < f.params.len() {
        let start: Scopes = seq![Map::empty()];
        let names = param_names(f);
        let types = all_types(f);
        assert(all_params(f)[r as int + i] == f.params[i as int]);
        assert(names[r as int + i] == f.params[i as int].name);
        assert(types[r as int + i] == f.params[i as int].ty);
        assert(declared(start, names, types, r + i + 1) == declare(
            declared(start, names, types, r + i),
            names[r as int + i],
            types[r as int + i],
        ));
        assert(r + i + 1 == r + (i + 1));
        lemma_params_declared(f, i + 1);
    }
}

/// The state in which each function is checked.
spec fn state_of(t: Tables) -> State {
    State { tables: t, env: Env { scopes: Seq::empty(), in_loop: false }, ret: Type::Unit }
}

/// A function that was accepted is lowered, unless its end may be reached.
proof fn lemma_function_lowers(
    t: Tables,
    cx: Cx,
    tmp: usize,
    lits: Seq<Seq<char>>,
    floats: Seq<Seq<char>>,
    f: FunctionV,
)
    requires
        setting(t, cx),
        written_function(f),
        function_known(t.structs.len(), t.enums.len(), f),
        checked_function(state_of(t), f).2 is Ok,
    ensures
        low_function(
            cx,
            lits,
            floats,
            arc_function(tmp, checked_function(state_of(t), f).0).0,
        ) matches Err(m) ==> left_over(m) || m == may_end(f),
{
    let f1 = checked_function(state_of(t), f).0;
    let f2 = arc_function(tmp, f1).0;
    let params = all_params(f);
    let n = params.len();
    let g = at_entry(lits, floats);
    lemma_entry(lits, floats);
    assert forall|i: int| 0 <= i < n implies known(
        t.structs.len(),
        t.enums.len(),
        #[trigger] all_types(f)[i],
    ) by {
        let r = n - f.params.len();
        if i >= r {
            assert(params[i] == f.params[i - r]);
        }
    }
    let scopes = crate::typing::bind_params(receiver_scope(f), f.params, 0).0;
    let r = (n - f.params.len()) as nat;
    let start: Scopes = seq![Map::empty()];
    assert(receiver_scope(f) == declared(start, param_names(f), all_types(f), r)) by {
        if let Some(recv) = f.recv {
            assert(params[0] == recv);
            assert(param_names(f)[0] == recv.name);
            assert(all_types(f)[0] == recv.ty);
            assert(declared(start, param_names(f), all_types(f), 0) == start);
        }
    }
    lemma_params_declared(f, 0);
    assert forall|k: int| 0 <= k < n implies is_new(
        declared(start, param_names(f), all_types(f), k as nat),
        #[trigger] param_names(f)[k],
    ) by {
        if k < r {
            assert(declared(start, param_names(f), all_types(f), 0) == start);
        }
    }
    lemma_params_see(t, g, f, n);
    let g1 = crate::lowering::bind_params(g, params, n);
    let binds = param_bindings(f);
    assert(binds.take(n as int) =~= binds);
    let env = Env { scopes, in_loop: false };
    let outer = ArcV { binds, around: 0, tmp };
    let g0 = push_scope(g1);
    lemma_within_push(g1.vars);
    lemma_held_within(binds, g1.vars, g0.vars);
    lemma_takes(cx, g0, binds, n);
    let g2 = low_stmts(cx, g0, takes(binds, n), 0)->Ok_0;
    let ga = Gen { vars: g1.vars, ..g2 };
    assert(push_scope(ga) == g2);
    assert(tracks(t, env, outer, ga));
    lemma_inner_lowers(t, cx, f.ret, env, outer, ga, f.body, 0);
    let body = arc_block(outer, f1.body, 0).0;
    assert(param_bindings(f1) == binds);
    assert(f2.body == takes(binds, n) + body);
    lemma_concat(cx, g0, takes(binds, n), body);
    assert(all_params(f2) == params);
}

// ----- programs ----------------------------------------------------------------------------------
/// What a symbol of a program is called by.
pub open spec fn symbol_key(p: ProgramV, i: int) -> Seq<char> {
    if i < p.externs.len() {
        p.externs[i].name
    } else {
        function_key(p.structs, p.functions[i - p.externs.len()])
    }
}

/// What a symbol of a program returns.
pub open spec fn symbol_ret(p: ProgramV, i: int) -> Type {
    if i < p.externs.len() {
        p.externs[i].ret
    } else {
        p.functions[i - p.externs.len()].ret
    }
}

pub open spec fn symbol_count(p: ProgramV) -> nat {
    p.externs.len() + p.functions.len()
}

/// Whether no two functions of a program are called by the same name, and none
/// by that of a builtin that lowering does not know.
pub open spec fn distinct_symbols(p: ProgramV) -> bool {
    &&& symbol_count(p) <= usize::MAX
    &&& forall|i: int, j: int|
        0 <= i < j < symbol_count(p) ==> #[trigger] symbol_key(p, i) != #[trigger] symbol_key(p, j)
    &&& forall|i: int|
        0 <= i < symbol_count(p) ==> #[trigger] symbol_key(p, i) != "pop"@ && symbol_key(p, i)
            != "find"@
}

proof fn lemma_callees(p: ProgramV, n: nat)
    requires
        n <= symbol_count(p),
        distinct_symbols(p),
    ensures
        forall|i: int|
            0 <= i < n ==> callees_of(p, n).contains_key(#[trigger] symbol_key(p, i))
                && callees_of(p, n)[symbol_key(p, i)] == i,
        forall|k: Seq<char>| #[trigger]
            callees_of(p, n).contains_key(k) ==> exists|i: int|
                0 <= i < n && #[trigger] symbol_key(p, i) == k,
    decreases n,
{
    if n > 0 {
        lemma_callees(p, (n - 1) as nat);
        let before = callees_of(p, (n - 1) as nat);
        let now = callees_of(p, n);
        assert(now == before.insert(symbol_key(p, n - 1), (n - 1) as usize));
        assert forall|i: int| 0 <= i < n implies now.contains_key(#[trigger] symbol_key(p, i))
            && now[symbol_key(p, i)] == i by {
            if i < n - 1 {
                assert(symbol_key(p, i) != symbol_key(p, n - 1));
            }
        }
        assert forall|k: Seq<char>| #[trigger] now.contains_key(k) implies exists|i: int|
            0 <= i < n && #[trigger] symbol_key(p, i) == k by {
            if k == symbol_key(p, n - 1) {
                assert(symbol_key(p, n - 1) == k);
            } else {
                assert(before.contains_key(k));
                let i = choose|i: int| 0 <= i < n - 1 && #[trigger] symbol_key(p, i) == k;
                assert(symbol_key(p, i) == k);
            }
        }
    }
}

/// Whether one of the first `n` symbols has that name and result.
spec fn from_symbol(p: ProgramV, n: nat, key: Seq<char>, ret: Type) -> bool {
    exists|i: int| 0 <= i < n && #[trigger] symbol_key(p, i) == key && symbol_ret(p, i) == ret
}

/// Whether everything that can be called is one of the first `n` symbols.
spec fn entered(t: Tables, p: ProgramV, n: nat) -> bool {
    &&& forall|k: Seq<char>| #[trigger]
        t.functions.contains_key(k) ==> from_symbol(p, n, k, t.functions[k].ret)
    &&& forall|i: int, k: Seq<char>|
        0 <= i < p.structs.len() && #[trigger] t.methods[i].contains_key(k) ==> from_symbol(
            p,
            n,
            Function::symbol(p.structs[i].name, k),
            t.methods[i][k].ret,
        )
}

proof fn lemma_from_more(p: ProgramV, n: nat, key: Seq<char>, ret: Type)
    requires
        from_symbol(p, n, key, ret),
    ensures
        from_symbol(p, n + 1, key, ret),
{
    let i = choose|i: int|
        0 <= i < n && #[trigger] symbol_key(p, i) == key && symbol_ret(p, i) == ret;
    assert(symbol_key(p, i) == key);
}

proof fn lemma_entered_more(t: Tables, p: ProgramV, n: nat)
    requires
        entered(t, p, n),
    ensures
        entered(t, p, n + 1),
{
    assert forall|k: Seq<char>| #[trigger] t.functions.contains_key(k) implies from_symbol(
        p,
        n + 1,
        k,
        t.functions[k].ret,
    ) by {
        lemma_from_more(p, n, k, t.functions[k].ret);
    }
    assert forall|i: int, k: Seq<char>|
        0 <= i < p.structs.len() && #[trigger] t.methods[i].contains_key(k) implies from_symbol(
        p,
        n + 1,
        Function::symbol(p.structs[i].name, k),
        t.methods[i][k].ret,
    ) by {
        lemma_from_more(p, n, Function::symbol(p.structs[i].name, k), t.methods[i][k].ret);
    }
}

proof fn lemma_structs_entered(t: Tables, ss: Seq<StructV>, i: nat)
    requires
        i <= ss.len(),
        t.struct_ids == struct_ids_of(ss, i),
        forall|k: Seq<char>| #[trigger] t.struct_ids.contains_key(k) ==> !builtin(k),
        enter_structs(t, ss, i as int).1 is Ok,
    ensures
        ({
            let t1 = enter_structs(t, ss, i as int).0;
            &&& t1 == (Tables { struct_ids: t1.struct_ids, ..t })
            &&& t1.struct_ids == struct_ids_of(ss, ss.len())
            &&& forall|k: Seq<char>| #[trigger] t1.struct_ids.contains_key(k) ==> !builtin(k)
        }),
    decreases ss.len() - i,
{
    if i < ss.len() {
        let t1 = Tables {
            struct_ids: t.struct_ids.insert(ss[i as int].name, i as u32),
            ..t
        };
        assert(struct_ids_of(ss, i + 1) == t1.struct_ids);
        lemma_structs_entered(t1, ss, i + 1);
    }
}

pub(crate) proof fn lemma_enums_entered(t: Tables, es: Seq<EnumV>, i: int)
    requires
        0 <= i <= es.len(),
    ensures
        enter_enums(t, es, i).0 == (Tables { enum_ids: enter_enums(t, es, i).0.enum_ids, ..t }),
    decreases es.len() - i,
{
    if i < es.len() {
        lemma_enums_entered(
            Tables { enum_ids: t.enum_ids.insert(es[i].name, i as u32), ..t },
            es,
            i + 1,
        );
    }
}

proof fn lemma_variants_entered(t: Tables, e: EnumV, i: int, j: int)
    requires
        0 <= j <= e.variants.len(),
    ensures
        enter_variants(t, e, i, j).0 == (Tables {
            variants: enter_variants(t, e, i, j).0.variants,
            ..t
        }),
    decreases e.variants.len() - j,
{
    if j < e.variants.len() {
        let name = e.variants[j].name;
        lemma_variants_entered(
            Tables { variants: t.variants.insert(name, (i as u32, j as u32)), ..t },
            e,
            i,
            j + 1,
        );
    }
}

pub(crate) proof fn lemma_all_variants_entered(t: Tables, es: Seq<EnumV>, i: int)
    requires
        0 <= i <= es.len(),
    ensures
        enter_all_variants(t, es, i).0 == (Tables {
            variants: enter_all_variants(t, es, i).0.variants,
            ..t
        }),
    decreases es.len() - i,
{
    if i < es.len() {
        lemma_variants_entered(t, es[i], i, 0);
        lemma_all_variants_entered(enter_variants(t, es[i], i, 0).0, es, i + 1);
    }
}

proof fn lemma_externs_entered(t: Tables, p: ProgramV, i: nat)
    requires
        i <= p.externs.len(),
        entered(t, p, i),
        enter_externs(t, p.externs, i as int).1 is Ok,
    ensures
        ({
            let t1 = enter_externs(t, p.externs, i as int).0;
            &&& t1 == (Tables { functions: t1.functions, ..t })
            &&& entered(t1, p, p.externs.len())
        }),
    decreases p.externs.len() - i,
{
    if i < p.externs.len() {
        let x = p.externs[i as int];
        let sig = SigV { params: x.params, varargs: x.varargs, ret: x.ret };
        let t1 = Tables { functions: t.functions.insert(x.name, sig), ..t };
        lemma_entered_more(t, p, i);
        assert(symbol_key(p, i as int) == x.name);
        assert(from_symbol(p, i + 1, x.name, x.ret));
        assert(entered(t1, p, i + 1));
        lemma_externs_entered(t1, p, i + 1);
    }
}

proof fn lemma_functions_entered(t: Tables, p: ProgramV, i: nat)
    requires
        i <= p.functions.len(),
        entered(t, p, p.externs.len() + i),
        p.structs.len() <= t.methods.len(),
        forall|k: int|
            0 <= k < p.functions.len() ==> function_known(
                p.structs.len(),
                p.enums.len(),
                #[trigger] p.functions[k],
            ),
        enter_functions(t, p.functions, i as int).1 is Ok,
    ensures
        ({
            let t1 = enter_functions(t, p.functions, i as int).0;
            &&& t1 == (Tables { functions: t1.functions, methods: t1.methods, ..t })
            &&& entered(t1, p, symbol_count(p))
        }),
    decreases p.functions.len() - i,
{
    if i < p.functions.len() {
        let f = p.functions[i as int];
        let n = p.externs.len() + i;
        let (t1, r) = enter_function(t, f);
        let sig = SigV { params: param_types(f.params), varargs: false, ret: f.ret };
        assert(function_known(p.structs.len(), p.enums.len(), f));
        lemma_entered_more(t, p, n);
        assert(symbol_key(p, n as int) == function_key(p.structs, f));
        assert(from_symbol(p, n + 1, function_key(p.structs, f), f.ret));
        match f.recv {
            Some(recv) => {
                if let Type::Struct(id) = recv.ty {
                    let own = t.methods[id as int];
                    assert forall|m: int, k: Seq<char>|
                        0 <= m < p.structs.len() && #[trigger] t1.methods[m].contains_key(
                            k,
                        ) implies from_symbol(
                        p,
                        n + 1,
                        Function::symbol(p.structs[m].name, k),
                        t1.methods[m][k].ret,
                    ) by {
                        if m == id && k == f.name {
                        } else {
                            assert(t.methods[m].contains_key(k));
                        }
                    }
                }
            },
            None => {},
        }
        assert(entered(t1, p, n + 1));
        lemma_functions_entered(t1, p, i + 1);
    }
}

/// The tables of an accepted program agree with what lowering makes of it.
proof fn lemma_agrees(p: ProgramV)
    requires
        program_known(p),
        distinct_symbols(p),
        enter_all(fresh_state().tables, p).1 is Ok,
    ensures
        setting(enter_all(fresh_state().tables, p).0, cx_of(p)),
        enter_all(fresh_state().tables, p).0.structs == p.structs,
        enter_all(fresh_state().tables, p).0.enums == p.enums,
{
    let t = fresh_state().tables;
    lemma_enter_all_known(t, p);
    let t0 = Tables { structs: p.structs, methods: padded(t.methods, p.structs.len()), ..t };
    assert(t0.struct_ids =~= struct_ids_of(p.structs, 0));
    lemma_structs_entered(t0, p.structs, 0);
    let t1 = enter_structs(t0, p.structs, 0).0;
    let ta = Tables { enums: p.enums, ..t1 };
    lemma_enums_entered(ta, p.enums, 0);
    let t2 = enter_enums(ta, p.enums, 0).0;
    lemma_all_variants_entered(t2, p.enums, 0);
    let t3 = enter_all_variants(t2, p.enums, 0).0;
    assert(entered(t3, p, 0));
    lemma_externs_entered(t3, p, 0);
    let t4 = enter_externs(t3, p.externs, 0).0;
    lemma_functions_entered(t4, p, 0);
    let t5 = enter_functions(t4, p.functions, 0).0;
    assert(t5 == enter_all(t, p).0);
    let cx = cx_of(p);
    lemma_callees(p, symbol_count(p));
    assert forall|key: Seq<char>, ret: Type|
        from_symbol(p, symbol_count(p), key, ret) implies #[trigger] leads_to(cx, key, ret) by {
        let i = choose|i: int|
            0 <= i < symbol_count(p) && #[trigger] symbol_key(p, i) == key && symbol_ret(p, i)
                == ret;
        assert(cx.callees[symbol_key(p, i)] == i);
    }
    reveal(agree);
}

/// Whether two functions have the same head.
spec fn same_head(a: FunctionV, b: FunctionV) -> bool {
    a.name == b.name && a.recv == b.recv && a.params == b.params && a.ret == b.ret
}

proof fn lemma_same_callees(p: ProgramV, q: ProgramV, n: nat)
    requires
        p.structs == q.structs,
        p.externs == q.externs,
        p.functions.len() == q.functions.len(),
        n <= symbol_count(p),
        forall|i: int|
            0 <= i < p.functions.len() ==> same_head(#[trigger] q.functions[i], p.functions[i]),
    ensures
        callees_of(p, n) == callees_of(q, n),
    decreases n,
{
    if n > 0 {
        lemma_same_callees(p, q, (n - 1) as nat);
        if n - 1 >= p.externs.len() {
            let i = n - 1 - p.externs.len();
            assert(same_head(q.functions[i], p.functions[i]));
        }
    }
}

/// Bodies do not matter for what lowering knows of a program.
proof fn lemma_same_cx(p: ProgramV, q: ProgramV)
    requires
        p.structs == q.structs,
        p.enums == q.enums,
        p.externs == q.externs,
        p.functions.len() == q.functions.len(),
        forall|i: int|
            0 <= i < p.functions.len() ==> same_head(#[trigger] q.functions[i], p.functions[i]),
    ensures
        cx_of(p) == cx_of(q),
{
    lemma_same_callees(p, q, symbol_count(p));
    let a = symbols_of(p);
    let b = symbols_of(q);
    assert forall|i: int| 0 <= i < a.len() implies a[i] == b[i] by {
        if i >= p.externs.len() {
            let k = i - p.externs.len();
            assert(same_head(q.functions[k], p.functions[k]));
            assert(all_params(q.functions[k]) == all_params(p.functions[k]));
        }
    }
    assert(a =~= b);
}

proof fn lemma_checked_functions(t: Tables, st: State, fs: Seq<FunctionV>, i: int)
    requires
        0 <= i <= fs.len(),
        st.tables == t,
        !st.env.in_loop,
        checked_functions(st, fs, i).2 is Ok,
    ensures
        ({
            let fs1 = checked_functions(st, fs, i).0;
            &&& fs1.len() == fs.len() - i
            &&& forall|k: int|
                0 <= k < fs1.len() ==> (#[trigger] fs1[k]) == checked_function(
                    state_of(t),
                    fs[i + k],
                ).0 && checked_function(state_of(t), fs[i + k]).2 is Ok
        }),
    decreases fs.len() - i,
{
    if i < fs.len() {
        let (f, st1, r) = checked_function(st, fs[i]);
        let scopes = crate::typing::bind_params(receiver_scope(fs[i]), fs[i].params, 0).0;
        lemma_block_scopes(t, fs[i].ret, Env { scopes, in_loop: false }, fs[i].body);
        lemma_checked_functions(t, st1, fs, i + 1);
        let rest = checked_functions(st1, fs, i + 1).0;
        let fs1 = seq![f] + rest;
        assert forall|k: int| 0 <= k < fs1.len() implies (#[trigger] fs1[k]) == checked_function(
            state_of(t),
            fs[i + k],
        ).0 && checked_function(state_of(t), fs[i + k]).2 is Ok by {
            if k > 0 {
                assert(fs1[k] == rest[k - 1]);
                assert(i + 1 + (k - 1) == i + k);
            }
        }
    }
}

/// Whether a function is what the counting makes of another.
spec fn counted_from(f2: FunctionV, f1: FunctionV) -> bool {
    exists|tmp: usize| f2 == (#[trigger] arc_function(tmp, f1)).0
}

proof fn lemma_counted_functions(tmp: usize, fs: Seq<FunctionV>, i: int)
    requires
        0 <= i <= fs.len(),
    ensures
        ({
            let fs2 = arc_functions(tmp, fs, i).0;
            &&& fs2.len() == fs.len() - i
            &&& forall|k: int| 0 <= k < fs2.len() ==> counted_from(#[trigger] fs2[k], fs[i + k])
        }),
    decreases fs.len() - i,
{
    if i < fs.len() {
        let (f, tmp1) = arc_function(tmp, fs[i]);
        lemma_counted_functions(tmp1, fs, i + 1);
        let rest = arc_functions(tmp1, fs, i + 1).0;
        let fs2 = seq![f] + rest;
        assert forall|k: int| 0 <= k < fs2.len() implies counted_from(
            #[trigger] fs2[k],
            fs[i + k],
        ) by {
            if k > 0 {
                assert(fs2[k] == rest[k - 1]);
                assert(i + 1 + (k - 1) == i + k);
            } else {
                assert(f == arc_function(tmp, fs[i]).0);
            }
        }
    }
}

/// What an accepted program may still be refused for: what is left to
/// lowering, a function whose end may be reached, or parameters of `main`.
pub open spec fn refusable(p: ProgramV, m: Seq<char>) -> bool {
    ||| left_over(m)
    ||| exists|i: int| 0 <= i < p.functions.len() && m == may_end(#[trigger] p.functions[i])
    ||| m == "codegen: `main` must not take parameters"@
}

proof fn lemma_functions_lower(
    t: Tables,
    cx: Cx,
    p: ProgramV,
    fs1: Seq<FunctionV>,
    fs2: Seq<FunctionV>,
    n: nat,
)
    requires
        setting(t, cx),
        t.structs == p.structs,
        t.enums == p.enums,
        program_known(p),
        forall|i: int|
            0 <= i < p.functions.len() ==> written_function(#[trigger] p.functions[i]),
        n <= p.functions.len() == fs1.len() == fs2.len(),
        forall|k: int|
            0 <= k < fs1.len() ==> (#[trigger] fs1[k]) == checked_function(
                state_of(t),
                p.functions[k],
            ).0 && checked_function(state_of(t), p.functions[k]).2 is Ok,
        forall|k: int| 0 <= k < fs2.len() ==> counted_from(#[trigger] fs2[k], fs1[k]),
    ensures
        low_functions(cx, fs2, n) matches Err(m) ==> refusable(p, m),
    decreases n,
{
    if n > 0 {
        lemma_functions_lower(t, cx, p, fs1, fs2, (n - 1) as nat);
        if let Ok((before, lits, floats)) = low_functions(cx, fs2, (n - 1) as nat) {
            let f = p.functions[n - 1];
            assert(written_function(f));
            assert(function_known(p.structs.len(), p.enums.len(), f));
            assert(fs1[n - 1] == checked_function(state_of(t), f).0);
            assert(counted_from(fs2[n - 1], fs1[n - 1]));
            let tmp = choose|tmp: usize|
                fs2[n - 1] == (#[trigger] arc_function(tmp, fs1[n - 1])).0;
            lemma_function_lowers(t, cx, tmp, lits, floats, f);
        }
    }
}

/// A program that the analysis accepts is lowered, once its references are
/// counted, but for what is left to lowering: `pop`, `find` and a character of
/// a string, the value of a call that returns none, a function whose end may be
/// reached, and parameters of `main`.
pub proof fn law_accepted_programs_lower(tmp: usize, p: ProgramV)
    requires
        program_known(p),
        distinct_symbols(p),
        forall|i: int|
            0 <= i < p.functions.len() ==> written_function(#[trigger] p.functions[i]),
        analyzed(fresh_state(), p).2 is Ok,
    ensures
        lowered(arc_program(tmp, analyzed(fresh_state(), p).0).0) matches Err(m) ==> refusable(
            p,
            m,
        ),
{
    lemma_agrees(p);
    let t = enter_all(fresh_state().tables, p).0;
    let st1 = State { tables: t, ..fresh_state() };
    let p1 = analyzed(fresh_state(), p).0;
    let p2 = arc_program(tmp, p1).0;
    let fs1 = checked_functions(st1, p.functions, 0).0;
    let fs2 = arc_functions(tmp, fs1, 0).0;
    lemma_checked_functions(t, st1, p.functions, 0);
    lemma_counted_functions(tmp, fs1, 0);
    assert forall|k: int| 0 <= k < fs1.len() implies (#[trigger] fs1[k]) == checked_function(
        state_of(t),
        p.functions[k],
    ).0 && checked_function(state_of(t), p.functions[k]).2 is Ok by {
        assert(0 + k == k);
    }
    assert forall|k: int| 0 <= k < fs2.len() implies counted_from(#[trigger] fs2[k], fs1[k]) by {
        assert(0 + k == k);
    }
    assert forall|i: int| 0 <= i < p.functions.len() implies same_head(
        #[trigger] p2.functions[i],
        p.functions[i],
    ) by {
        assert(counted_from(fs2[i], fs1[i]));
        assert(fs1[i] == checked_function(state_of(t), p.functions[i]).0);
    }
    lemma_same_cx(p, p2);
    lemma_functions_lower(t, cx_of(p2), p, fs1, fs2, fs2.len());
}

} // verus!
