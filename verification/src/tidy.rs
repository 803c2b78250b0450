//! Accepted functions bind names of their own and jump only inside loops.
use vstd::prelude::*;
use crate::acceptance::{written, written_arm, written_arms, written_block, written_function};
use crate::ast::{ArmV, EnumV, ExprV, FunctionV, KindV, PatternV, StmtV, Type};
use crate::lowering::all_params;
use crate::naming::{own_name, own_names, param_names, pattern_names};
use crate::soundness::{lemma_arm_scopes, lemma_block_scopes, lemma_for_scopes, lemma_loop_scopes};
use crate::typing::{
    bind_all, bind_params, checked, checked_arm, checked_arms, checked_block, checked_each,
    checked_for, checked_function, checked_if, checked_let, checked_loop, checked_match,
    checked_range, checked_return, checked_stmts, checked_while, constructs, covering, declare,
    lookup, pushed, receiver_scope, typed, typed_kind, Env, Scopes, State, Tables,
};

verus! {

/// Whether a statement binds only names of its own, returns no other variable,
/// jumps only inside a loop (`looped` says whether one is around it), and
/// counts no references.
pub open spec fn tidy(s: StmtV, looped: bool) -> bool
    decreases s,
{
    match s {
        StmtV::Let { name, ty, value, line } => own_name(name),
        StmtV::Return { value, line } => value matches Some(e) ==> (e.kind matches KindV::Var(x)
            ==> own_name(x)),
        StmtV::Break { line } => looped,
        StmtV::Continue { line } => looped,
        StmtV::If { cond, then_block, else_block } => {
            &&& tidy_block(then_block, looped)
            &&& match else_block {
                Some(b) => tidy_block(b, looped),
                None => true,
            }
        },
        StmtV::While { cond, body } => tidy_block(body, true),
        StmtV::For { var, start, end, body, line } => own_name(var) && tidy_block(body, true),
        StmtV::ForEach { var, iterable, body, line } => own_name(var) && tidy_block(body, true),
        StmtV::Match { scrutinee, arms, line } => tidy_arms(arms, looped),
        StmtV::Retain(_) => false,
        StmtV::Release(_) => false,
        _ => true,
    }
}

pub open spec fn tidy_block(b: Seq<StmtV>, looped: bool) -> bool
    decreases b,
{
    forall|i: int| 0 <= i < b.len() ==> tidy(#[trigger] b[i], looped)
}

pub open spec fn tidy_arm(arm: ArmV, looped: bool) -> bool
    decreases arm,
{
    own_names(pattern_names(arm.pattern)) && tidy_block(arm.body, looped)
}

pub open spec fn tidy_arms(arms: Seq<ArmV>, looped: bool) -> bool
    decreases arms,
{
    forall|i: int| 0 <= i < arms.len() ==> tidy_arm(#[trigger] arms[i], looped)
}

/// Whether a function is tidy, and no two of its parameters have one name.
pub open spec fn tidy_function(f: FunctionV) -> bool {
    &&& own_names(param_names(f))
    &&& forall|i: int, j: int|
        0 <= i < j < param_names(f).len() ==> #[trigger] param_names(f)[i]
            != #[trigger] param_names(f)[j]
    &&& tidy_block(f.body, false)
}

/// Whether every variable in scope has a name of the program's own.
#[verifier::opaque]
spec fn own_scopes(sc: Scopes) -> bool {
    forall|name: Seq<char>| #[trigger] lookup(sc, name) is Some ==> own_name(name)
}

proof fn lemma_own_declare(sc: Scopes, name: Seq<char>, ty: Type)
    requires
        sc.len() > 0,
        own_scopes(sc),
        own_name(name),
    ensures
        own_scopes(declare(sc, name, ty)),
{
    reveal(own_scopes);
    let sc1 = declare(sc, name, ty);
    assert(sc1.drop_last() =~= sc.drop_last());
    assert forall|n: Seq<char>| #[trigger] lookup(sc1, n) is Some implies own_name(n) by {
        if n != name {
            assert(lookup(sc, n) is Some);
        }
    }
}

proof fn lemma_own_push(sc: Scopes)
    requires
        own_scopes(sc),
    ensures
        own_scopes(pushed(sc)),
{
    reveal(own_scopes);
    assert(pushed(sc).drop_last() =~= sc);
    assert forall|n: Seq<char>| #[trigger] lookup(pushed(sc), n) is Some implies own_name(n) by {
        assert(lookup(sc, n) is Some);
    }
}

proof fn lemma_own_all(sc: Scopes, names: Seq<Seq<char>>, types: Seq<Type>, i: int)
    requires
        sc.len() > 0,
        own_scopes(sc),
        own_names(names),
        0 <= i,
        bind_all(sc, names, types, i).1 is None,
    ensures
        own_scopes(bind_all(sc, names, types, i).0),
    decreases names.len() - i,
{
    if i < names.len() {
        assert(own_name(names[i]));
        lemma_own_declare(sc, names[i], types[i]);
        lemma_own_all(declare(sc, names[i], types[i]), names, types, i + 1);
    }
}

/// A variable that an accepted expression stands for is in scope.
proof fn lemma_var_own(t: Tables, sc: Scopes, e: ExprV)
    requires
        own_scopes(sc),
        typed(t, sc, e).1 is Ok,
    ensures
        typed(t, sc, e).0.kind matches KindV::Var(x) ==> own_name(x),
{
    reveal(own_scopes);
    if constructs(t, sc, e) is None {
        let kind = typed_kind(t, sc, e.kind, e.span).0;
        assert(typed(t, sc, e).0.kind == kind);
        if let KindV::Var(x) = kind {
            assert(e.kind == KindV::Var(x));
            assert(lookup(sc, x) is Some);
        }
    }
}

proof fn lemma_stmt_tidy(t: Tables, ret: Type, env: Env, s: StmtV)
    requires
        own_scopes(env.scopes),
        env.scopes.len() > 0,
        written(s),
        checked(t, ret, env, s).2 is Ok,
    ensures
        tidy(checked(t, ret, env, s).0, env.in_loop),
        own_scopes(checked(t, ret, env, s).1.scopes),
        checked(t, ret, env, s).1.scopes.len() == env.scopes.len(),
        checked(t, ret, env, s).1.in_loop == env.in_loop,
    decreases s, 2nat,
{
    match s {
        StmtV::Let { name, ty, value, line } => {
            reveal(checked_let);
            let ty1 = checked(t, ret, env, s).0->Let_ty->0;
            lemma_own_declare(env.scopes, name, ty1);
        },
        StmtV::Assign { .. } => {
            reveal(crate::typing::checked_assign);
        },
        StmtV::IndexAssign { .. } => {
            reveal(crate::typing::checked_index_assign);
        },
        StmtV::FieldAssign { .. } => {
            reveal(crate::typing::checked_field_assign);
        },
        StmtV::Return { value, line } => {
            reveal(checked_return);
            if let Some(e) = value {
                lemma_var_own(t, env.scopes, e);
            }
        },
        StmtV::If { cond, then_block, else_block } => {
            assert(checked(t, ret, env, s) == checked_if(t, ret, env, s));
            lemma_block_tidy(t, ret, env, then_block);
            if let Some(b) = else_block {
                lemma_block_tidy(t, ret, env, b);
            }
        },
        StmtV::While { cond, body } => {
            assert(checked(t, ret, env, s) == checked_while(t, ret, env, s));
            lemma_loop_tidy(t, ret, env, body);
        },
        StmtV::For { var, start, end, body, line } => {
            assert(checked(t, ret, env, s) == checked_range(t, ret, env, s));
            lemma_for_tidy(t, ret, env, var, Type::Int, body);
        },
        StmtV::ForEach { var, iterable, body, line } => {
            assert(checked(t, ret, env, s) == checked_each(t, ret, env, s));
            let elem = typed(t, env.scopes, iterable).1->Ok_0.elem()->0;
            lemma_for_tidy(t, ret, env, var, elem, body);
        },
        StmtV::Match { scrutinee, arms, line } => {
            assert(checked(t, ret, env, s) == checked_match(t, ret, env, s));
            if let Type::Enum(id) = typed(t, env.scopes, scrutinee).1->Ok_0 {
                let def = t.enums[id as int];
                let none = Seq::new(def.variants.len(), |i: int| false);
                lemma_arms_tidy(t, ret, env, def, arms, 0, none, false, line);
            }
        },
        _ => {},
    }
}

proof fn lemma_block_tidy(t: Tables, ret: Type, env: Env, b: Seq<StmtV>)
    requires
        own_scopes(env.scopes),
        written_block(b),
        checked_block(t, ret, env, b).2 is Ok,
    ensures
        tidy_block(checked_block(t, ret, env, b).0, env.in_loop),
        checked_block(t, ret, env, b).1 == env,
    decreases b, b.len() + 1,
{
    let inner = Env { scopes: pushed(env.scopes), ..env };
    lemma_own_push(env.scopes);
    lemma_stmts_tidy(t, ret, inner, b, 0);
    lemma_block_scopes(t, ret, env, b);
}

proof fn lemma_stmts_tidy(t: Tables, ret: Type, env: Env, b: Seq<StmtV>, i: int)
    requires
        own_scopes(env.scopes),
        env.scopes.len() > 0,
        written_block(b),
        checked_stmts(t, ret, env, b, i).2 is Ok,
        0 <= i,
    ensures
        tidy_block(checked_stmts(t, ret, env, b, i).0, env.in_loop),
    decreases b, b.len() - i,
{
    if i < b.len() {
        assert(written(b[i]));
        lemma_stmt_tidy(t, ret, env, b[i]);
        let (s1, env1, r) = checked(t, ret, env, b[i]);
        lemma_stmts_tidy(t, ret, env1, b, i + 1);
        let rest = checked_stmts(t, ret, env1, b, i + 1).0;
        let all = seq![s1] + rest;
        assert forall|k: int| 0 <= k < all.len() implies tidy(#[trigger] all[k], env.in_loop) by {
            if k > 0 {
                assert(all[k] == rest[k - 1]);
            }
        }
    }
}

proof fn lemma_loop_tidy(t: Tables, ret: Type, env: Env, b: Seq<StmtV>)
    requires
        own_scopes(env.scopes),
        written_block(b),
        checked_loop(t, ret, env, b).2 is Ok,
    ensures
        tidy_block(checked_loop(t, ret, env, b).0, true),
        checked_loop(t, ret, env, b).1 == env,
    decreases b, b.len() + 2,
{
    lemma_block_tidy(t, ret, Env { in_loop: true, ..env }, b);
    lemma_loop_scopes(t, ret, env, b);
}

proof fn lemma_for_tidy(t: Tables, ret: Type, env: Env, var: Seq<char>, ty: Type, b: Seq<StmtV>)
    requires
        own_scopes(env.scopes),
        own_name(var),
        written_block(b),
        checked_for(t, ret, env, var, ty, b).2 is Ok,
    ensures
        tidy_block(checked_for(t, ret, env, var, ty, b).0, true),
        checked_for(t, ret, env, var, ty, b).1 == env,
    decreases b, b.len() + 3,
{
    lemma_own_push(env.scopes);
    lemma_own_declare(pushed(env.scopes), var, ty);
    let inner = Env { scopes: declare(pushed(env.scopes), var, ty), ..env };
    lemma_loop_tidy(t, ret, inner, b);
    lemma_for_scopes(t, ret, env, var, ty, b);
}

proof fn lemma_arm_tidy(
    t: Tables,
    ret: Type,
    env: Env,
    def: EnumV,
    arm: ArmV,
    covered: Seq<bool>,
    wild: bool,
    line: usize,
)
    requires
        own_scopes(env.scopes),
        env.scopes.len() > 0,
        written_arm(arm),
        checked_arm(t, ret, env, def, arm, covered, wild, line).2 is Ok,
    ensures
        tidy_arm(checked_arm(t, ret, env, def, arm, covered, wild, line).0, env.in_loop),
        checked_arm(t, ret, env, def, arm, covered, wild, line).1 == env,
    decreases arm, 0nat,
{
    lemma_arm_scopes(t, ret, env, def, arm, covered, wild, line);
    match arm.pattern {
        PatternV::Wildcard => {
            lemma_block_tidy(t, ret, env, arm.body);
        },
        PatternV::Variant { name, bindings, types } => {
            let v = def.variant_of(name)->0;
            let fields = def.variants[v].fields;
            lemma_own_push(env.scopes);
            lemma_own_all(pushed(env.scopes), bindings, fields, 0);
            let scopes1 = bind_all(pushed(env.scopes), bindings, fields, 0).0;
            lemma_block_tidy(t, ret, Env { scopes: scopes1, ..env }, arm.body);
        },
    }
}

proof fn lemma_arms_tidy(
    t: Tables,
    ret: Type,
    env: Env,
    def: EnumV,
    arms: Seq<ArmV>,
    i: int,
    covered: Seq<bool>,
    wild: bool,
    line: usize,
)
    requires
        own_scopes(env.scopes),
        env.scopes.len() > 0,
        written_arms(arms),
        checked_arms(t, ret, env, def, arms, i, covered, wild, line).2 is Ok,
        0 <= i,
    ensures
        tidy_arms(
            checked_arms(t, ret, env, def, arms, i, covered, wild, line).0,
            env.in_loop,
        ),
        checked_arms(t, ret, env, def, arms, i, covered, wild, line).1 == env,
    decreases arms, arms.len() - i,
{
    if i < arms.len() {
        assert(written_arm(arms[i]));
        lemma_arm_tidy(t, ret, env, def, arms[i], covered, wild, line);
        let arm1 = checked_arm(t, ret, env, def, arms[i], covered, wild, line).0;
        let covered1 = covering(def, covered, arms[i]);
        let wild1 = wild || arms[i].pattern is Wildcard;
        lemma_arms_tidy(t, ret, env, def, arms, i + 1, covered1, wild1, line);
        let rest = checked_arms(t, ret, env, def, arms, i + 1, covered1, wild1, line).0;
        let all = seq![arm1] + rest;
        assert forall|k: int| 0 <= k < all.len() implies tidy_arm(
            #[trigger] all[k],
            env.in_loop,
        ) by {
            if k > 0 {
                assert(all[k] == rest[k - 1]);
            }
        }
    }
}

/// The parameters from position `i` on are new, and their names the program's
/// own.
proof fn lemma_params_own(sc: Scopes, f: FunctionV, i: int)
    requires
        sc.len() > 0,
        own_scopes(sc),
        own_names(param_names(f)),
        0 <= i <= f.params.len(),
        bind_params(sc, f.params, i).1 is None,
        ({
            let r = all_params(f).len() - f.params.len();
            forall|k: int| 0 <= k < r + i ==> sc.last().contains_key(#[trigger] param_names(f)[k])
        }),
    ensures
        own_scopes(bind_params(sc, f.params, i).0),
        ({
            let r = all_params(f).len() - f.params.len();
            forall|a: int, b: int|
                0 <= a < b < param_names(f).len() && r + i <= b ==> #[trigger] param_names(f)[a]
                    != #[trigger] param_names(f)[b]
        }),
    decreases f.params.len() - i,
{
    let r = all_params(f).len() - f.params.len();
    let names = param_names(f);
    if i < f.params.len() {
        let p = f.params[i];
        assert(all_params(f)[r + i] == p);
        assert(names[r + i] == p.name);
        lemma_own_declare(sc, p.name, p.ty);
        let more = declare(sc, p.name, p.ty);
        assert forall|k: int| 0 <= k < r + i + 1 implies more.last().contains_key(
            #[trigger] names[k],
        ) by {
            if k < r + i {
                assert(sc.last().contains_key(names[k]));
            }
        }
        lemma_params_own(more, f, i + 1);
        assert forall|a: int, b: int|
            0 <= a < b < names.len() && r + i <= b implies #[trigger] names[a]
            != #[trigger] names[b] by {
            if b == r + i {
                assert(sc.last().contains_key(names[a]));
            }
        }
    }
}

/// An accepted function binds names of its own, and jumps only inside loops.
pub proof fn law_accepted_functions_are_tidy(st: State, f: FunctionV)
    requires
        written_function(f),
        !st.env.in_loop,
        checked_function(st, f).2 is Ok,
    ensures
        tidy_function(checked_function(st, f).0),
        checked_function(st, f).1.tables == st.tables,
        !checked_function(st, f).1.env.in_loop,
{
    let f1 = checked_function(st, f).0;
    let start: Scopes = seq![Map::empty()];
    let sc = receiver_scope(f);
    assert(own_scopes(start)) by {
        reveal(own_scopes);
        reveal_with_fuel(lookup, 2);
        assert(start.drop_last() =~= Seq::empty());
    }
    if let Some(recv) = f.recv {
        assert(all_params(f)[0] == recv);
        assert(own_name(param_names(f)[0]));
        lemma_own_declare(start, recv.name, recv.ty);
        assert(sc.last().contains_key(param_names(f)[0]));
    }
    lemma_params_own(sc, f, 0);
    assert(param_names(f1) == param_names(f));
    let env = Env { scopes: bind_params(sc, f.params, 0).0, in_loop: st.env.in_loop };
    lemma_block_tidy(st.tables, f.ret, env, f.body);
}

} // verus!
