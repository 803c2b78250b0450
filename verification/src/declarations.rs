//! What an analysis accepts still names only declared structs and enums.
use vstd::prelude::*;
use crate::ast::{
    field_from, ArmV, EnumV, ExprV, FunctionV, KindV, ParamV, PatternV, ProgramV, StmtV, Type,
};
use crate::diag::Span;
use crate::grammar::checked_array;
use crate::sema::{lemma_declare_known, lemma_enter_all_known, lemma_lookup_known, lemma_push_known};
use crate::soundness::{lemma_arm_scopes, lemma_block_scopes, lemma_for_scopes, lemma_loop_scopes};
use crate::typing::{
    all_known, analyzed, arm_known, arms_known, bind_all, bind_params, block_known, builtin,
    builtin_arity, checked, checked_arm, checked_arms, checked_assign, checked_block, checked_each,
    checked_field_assign, checked_for, checked_function, checked_functions, checked_if,
    checked_index_assign, checked_let, checked_loop, checked_match, checked_range, checked_return,
    checked_stmts, checked_while, constructs, covering, declare, enter_all, enum_known, expr_known,
    exprs_known, function_known, kind_known, known, names_known, params_known, program_known,
    pushed, receiver_scope, scopes_known, sig_known, stmt_known, tables_known, typed, typed_array,
    typed_call, typed_kind, typed_list, typed_method, Env, Scopes, State, Tables, Want,
};

verus! {

// ----- expressions ------------------------------------------------------------------------------
/// What an accepted expression names is declared, and so is what its type names.
spec fn fits(t: Tables, e: ExprV, ty: Type) -> bool {
    expr_known(t.enums.len(), e) && known(t.structs.len(), t.enums.len(), ty)
}

proof fn lemma_typed(t: Tables, sc: Scopes, e: ExprV)
    requires
        tables_known(t),
        scopes_known(t.structs.len(), t.enums.len(), sc),
        sc.len() > 0,
        expr_known(t.enums.len(), e),
    ensures
        typed(t, sc, e).1 matches Ok(ty) ==> fits(t, typed(t, sc, e).0, ty),
    decreases e, 0nat,
{
    match constructs(t, sc, e) {
        Some((eid, vid)) => {
            let fields = t.enums[eid as int].variants[vid as int].fields;
            assert(eid < t.enums.len()) by {
                reveal(tables_known);
            }
            if let KindV::Call(name, args) = e.kind {
                lemma_typed_list(t, sc, args, Want::Payload { name, fields }, 0);
            }
        },
        None => {
            assert(kind_known(t.enums.len(), e.kind));
            lemma_typed_kind(t, sc, e.kind, e.span);
        },
    }
    let (e1, r) = typed(t, sc, e);
    if r is Ok {
        assert(kind_known(t.enums.len(), e1.kind));
    }
}

proof fn lemma_typed_kind(t: Tables, sc: Scopes, k: KindV, span: Span)
    requires
        tables_known(t),
        scopes_known(t.structs.len(), t.enums.len(), sc),
        sc.len() > 0,
        kind_known(t.enums.len(), k),
    ensures
        typed_kind(t, sc, k, span).1 matches Ok(ty) ==> kind_known(
            t.enums.len(),
            typed_kind(t, sc, k, span).0,
        ) && known(t.structs.len(), t.enums.len(), ty),
    decreases k, 3nat,
{
    match k {
        KindV::Var(name) => {
            lemma_lookup_known(t.structs.len(), t.enums.len(), sc, name);
        },
        KindV::Unary(op, a) => {
            lemma_typed(t, sc, *a);
        },
        KindV::Binary(a, op, b) => {
            lemma_typed(t, sc, *a);
            lemma_typed(t, sc, *b);
        },
        KindV::Call(name, args) => {
            lemma_typed_call(t, sc, name, args, span);
        },
        KindV::MethodCall(recv, name, args) => {
            lemma_typed(t, sc, *recv);
            let recv1 = typed(t, sc, *recv).0;
            if let Ok(rt) = typed(t, sc, *recv).1 {
                lemma_typed_method(t, sc, rt, recv1.span, name, args, span);
            }
        },
        KindV::ArrayLit(es) => {
            lemma_typed_array(t, sc, es, span);
        },
        KindV::Index(a, b) => {
            lemma_typed(t, sc, *a);
            lemma_typed(t, sc, *b);
        },
        KindV::Field(a, name) => {
            lemma_typed(t, sc, *a);
            if let Ok(Type::Struct(id)) = typed(t, sc, *a).1 {
                lemma_field_known(t, id, name);
            }
        },
        _ => {},
    }
}

/// The fields of a declared struct are of known types.
proof fn lemma_field_known(t: Tables, id: u32, name: Seq<char>)
    requires
        tables_known(t),
        id < t.structs.len(),
    ensures
        t.structs[id as int].field_of(name) matches Some((i, ty)) ==> known(
            t.structs.len(),
            t.enums.len(),
            ty,
        ),
{
    reveal(tables_known);
    let def = t.structs[id as int];
    assert(params_known(t.structs.len(), t.enums.len(), def.fields));
    lemma_field_from(t.structs.len(), t.enums.len(), def.fields, name, 0);
}

proof fn lemma_field_from(ns: nat, ne: nat, fields: Seq<ParamV>, name: Seq<char>, i: int)
    requires
        params_known(ns, ne, fields),
        0 <= i,
    ensures
        field_from(fields, name, i) matches Some((k, ty)) ==> known(ns, ne, ty),
    decreases fields.len() - i,
{
    if i < fields.len() {
        assert(known(ns, ne, fields[i].ty));
        lemma_field_from(ns, ne, fields, name, i + 1);
    }
}

proof fn lemma_typed_call(t: Tables, sc: Scopes, name: Seq<char>, args: Seq<ExprV>, span: Span)
    requires
        tables_known(t),
        scopes_known(t.structs.len(), t.enums.len(), sc),
        sc.len() > 0,
        exprs_known(t.enums.len(), args),
    ensures
        typed_call(t, sc, name, args, span).1 matches Ok(ty) ==> exprs_known(
            t.enums.len(),
            typed_call(t, sc, name, args, span).0,
        ) && known(t.structs.len(), t.enums.len(), ty),
    decreases args, args.len() + 2,
{
    if builtin(name) {
        if args.len() == builtin_arity(name) {
            if name == "find"@ {
                lemma_typed_list(t, sc, args, Want::Find, 0);
            } else {
                lemma_typed(t, sc, args[0]);
                if name == "push"@ {
                    lemma_typed(t, sc, args[1]);
                }
            }
        }
    } else if t.struct_ids.contains_key(name) {
        let id = t.struct_ids[name];
        assert(id < t.structs.len()) by {
            reveal(tables_known);
        }
        let def = t.structs[id as int];
        lemma_typed_list(t, sc, args, Want::Fields { def }, 0);
    } else if t.functions.contains_key(name) {
        let sig = t.functions[name];
        assert(sig_known(t.structs.len(), t.enums.len(), sig)) by {
            reveal(tables_known);
        }
        lemma_typed_list(t, sc, args, Want::Params { name, sig, span }, 0);
    }
}

proof fn lemma_typed_method(
    t: Tables,
    sc: Scopes,
    rt: Type,
    at: Span,
    name: Seq<char>,
    args: Seq<ExprV>,
    span: Span,
)
    requires
        tables_known(t),
        scopes_known(t.structs.len(), t.enums.len(), sc),
        sc.len() > 0,
        known(t.structs.len(), t.enums.len(), rt),
        exprs_known(t.enums.len(), args),
    ensures
        typed_method(t, sc, rt, at, name, args, span).1 matches Ok(ty) ==> exprs_known(
            t.enums.len(),
            typed_method(t, sc, rt, at, name, args, span).0,
        ) && known(t.structs.len(), t.enums.len(), ty),
    decreases args, args.len() + 2,
{
    if let Type::Struct(id) = rt {
        if t.methods[id as int].contains_key(name) {
            let sig = t.methods[id as int][name];
            assert(sig_known(t.structs.len(), t.enums.len(), sig)) by {
                reveal(tables_known);
            }
            lemma_typed_list(t, sc, args, Want::Method { name, sig }, 0);
        }
    }
}

proof fn lemma_typed_array(t: Tables, sc: Scopes, es: Seq<ExprV>, span: Span)
    requires
        tables_known(t),
        scopes_known(t.structs.len(), t.enums.len(), sc),
        sc.len() > 0,
        exprs_known(t.enums.len(), es),
    ensures
        typed_array(t, sc, es, span).1 matches Ok(ty) ==> exprs_known(
            t.enums.len(),
            typed_array(t, sc, es, span).0,
        ) && known(t.structs.len(), t.enums.len(), ty),
    decreases es, es.len() + 2,
{
    if es.len() > 0 {
        lemma_typed(t, sc, es[0]);
        if let Ok(ty) = typed(t, sc, es[0]).1 {
            if checked_array(ty) is Some {
                lemma_typed_list(t, sc, es, Want::Elems { first: ty }, 1);
                let first = typed(t, sc, es[0]).0;
                let rest = typed_list(t, sc, es, Want::Elems { first: ty }, 1).0;
                if typed_array(t, sc, es, span).1 is Ok {
                    lemma_one_more(t.enums.len(), first, rest);
                }
            }
        }
    }
}

proof fn lemma_one_more(ne: nat, e: ExprV, rest: Seq<ExprV>)
    requires
        expr_known(ne, e),
        exprs_known(ne, rest),
    ensures
        exprs_known(ne, seq![e] + rest),
{
    let all = seq![e] + rest;
    assert forall|k: int| 0 <= k < all.len() implies expr_known(ne, #[trigger] all[k]) by {
        if k > 0 {
            assert(all[k] == rest[k - 1]);
        }
    }
}

proof fn lemma_typed_list(t: Tables, sc: Scopes, es: Seq<ExprV>, w: Want, i: int)
    requires
        tables_known(t),
        scopes_known(t.structs.len(), t.enums.len(), sc),
        sc.len() > 0,
        exprs_known(t.enums.len(), es),
        0 <= i,
    ensures
        typed_list(t, sc, es, w, i).1 is Ok ==> exprs_known(
            t.enums.len(),
            typed_list(t, sc, es, w, i).0,
        ),
    decreases es, es.len() - i,
{
    if i < es.len() {
        lemma_typed(t, sc, es[i]);
        lemma_typed_list(t, sc, es, w, i + 1);
        if typed_list(t, sc, es, w, i).1 is Ok {
            let rest = typed_list(t, sc, es, w, i + 1).0;
            lemma_one_more(t.enums.len(), typed(t, sc, es[i]).0, rest);
        }
    }
}

// ----- statements -------------------------------------------------------------------------------
/// A statement without blocks.
#[verifier::rlimit(50)]
proof fn lemma_simple(t: Tables, ret: Type, env: Env, s: StmtV)
    requires
        tables_known(t),
        scopes_known(t.structs.len(), t.enums.len(), env.scopes),
        env.scopes.len() > 0,
        stmt_known(t.structs.len(), t.enums.len(), s),
        checked(t, ret, env, s).2 is Ok,
        !(s is If || s is While || s is For || s is ForEach || s is Match),
    ensures
        stmt_known(t.structs.len(), t.enums.len(), checked(t, ret, env, s).0),
        scopes_known(t.structs.len(), t.enums.len(), checked(t, ret, env, s).1.scopes),
        checked(t, ret, env, s).1.scopes.len() > 0,
{
    let ns = t.structs.len();
    let ne = t.enums.len();
    let sc = env.scopes;
    match s {
        StmtV::Let { name, ty, value, line } => {
            reveal(checked_let);
            lemma_typed(t, sc, value);
            let ty1 = checked(t, ret, env, s).0->Let_ty->0;
            lemma_declare_known(ns, ne, sc, name, ty1);
        },
        StmtV::Assign { name, value, line } => {
            reveal(checked_assign);
            lemma_typed(t, sc, value);
        },
        StmtV::IndexAssign { target, index, value, line } => {
            reveal(checked_index_assign);
            lemma_typed(t, sc, target);
            lemma_typed(t, sc, index);
            lemma_typed(t, sc, value);
        },
        StmtV::FieldAssign { target, field, value, line } => {
            reveal(checked_field_assign);
            lemma_typed(t, sc, target);
            lemma_typed(t, sc, value);
        },
        StmtV::Expr(e) => {
            lemma_typed(t, sc, e);
        },
        StmtV::Return { value, line } => {
            reveal(checked_return);
            if let Some(e) = value {
                lemma_typed(t, sc, e);
            }
        },
        _ => {},
    }
}

#[verifier::rlimit(50)]
proof fn lemma_stmt(t: Tables, ret: Type, env: Env, s: StmtV)
    requires
        tables_known(t),
        scopes_known(t.structs.len(), t.enums.len(), env.scopes),
        env.scopes.len() > 0,
        stmt_known(t.structs.len(), t.enums.len(), s),
        checked(t, ret, env, s).2 is Ok,
    ensures
        stmt_known(t.structs.len(), t.enums.len(), checked(t, ret, env, s).0),
        scopes_known(t.structs.len(), t.enums.len(), checked(t, ret, env, s).1.scopes),
        checked(t, ret, env, s).1.scopes.len() > 0,
    decreases s, 2nat,
{
    let ns = t.structs.len();
    let ne = t.enums.len();
    let sc = env.scopes;
    match s {
        StmtV::If { cond, then_block, else_block } => {
            assert(checked(t, ret, env, s) == checked_if(t, ret, env, s));
            lemma_typed(t, sc, cond);
            lemma_block(t, ret, env, then_block);
            if let Some(b) = else_block {
                lemma_block(t, ret, env, b);
            }
        },
        StmtV::While { cond, body } => {
            assert(checked(t, ret, env, s) == checked_while(t, ret, env, s));
            lemma_typed(t, sc, cond);
            lemma_loop(t, ret, env, body);
        },
        StmtV::For { var, start, end, body, line } => {
            assert(checked(t, ret, env, s) == checked_range(t, ret, env, s));
            lemma_typed(t, sc, start);
            lemma_typed(t, sc, end);
            lemma_for(t, ret, env, var, Type::Int, body);
        },
        StmtV::ForEach { var, iterable, body, line } => {
            assert(checked(t, ret, env, s) == checked_each(t, ret, env, s));
            lemma_typed(t, sc, iterable);
            let elem = typed(t, sc, iterable).1->Ok_0.elem()->0;
            lemma_for(t, ret, env, var, elem, body);
        },
        StmtV::Match { scrutinee, arms, line } => {
            assert(checked(t, ret, env, s) == checked_match(t, ret, env, s));
            lemma_typed(t, sc, scrutinee);
            if let Type::Enum(id) = typed(t, sc, scrutinee).1->Ok_0 {
                let def = t.enums[id as int];
                assert(enum_known(ns, ne, def)) by {
                    reveal(tables_known);
                }
                let none = Seq::new(def.variants.len(), |i: int| false);
                lemma_arms(t, ret, env, def, arms, 0, none, false, line);
            }
        },
        _ => {
            lemma_simple(t, ret, env, s);
        },
    }
}

proof fn lemma_block(t: Tables, ret: Type, env: Env, b: Seq<StmtV>)
    requires
        tables_known(t),
        scopes_known(t.structs.len(), t.enums.len(), env.scopes),
        block_known(t.structs.len(), t.enums.len(), b),
        checked_block(t, ret, env, b).2 is Ok,
    ensures
        block_known(t.structs.len(), t.enums.len(), checked_block(t, ret, env, b).0),
        checked_block(t, ret, env, b).1 == env,
    decreases b, b.len() + 1,
{
    let inner = Env { scopes: pushed(env.scopes), ..env };
    lemma_push_known(t.structs.len(), t.enums.len(), env.scopes);
    lemma_stmts(t, ret, inner, b, 0);
    lemma_block_scopes(t, ret, env, b);
}

proof fn lemma_stmts(t: Tables, ret: Type, env: Env, b: Seq<StmtV>, i: int)
    requires
        tables_known(t),
        scopes_known(t.structs.len(), t.enums.len(), env.scopes),
        env.scopes.len() > 0,
        block_known(t.structs.len(), t.enums.len(), b),
        checked_stmts(t, ret, env, b, i).2 is Ok,
        0 <= i,
    ensures
        block_known(t.structs.len(), t.enums.len(), checked_stmts(t, ret, env, b, i).0),
    decreases b, b.len() - i,
{
    let ns = t.structs.len();
    let ne = t.enums.len();
    if i < b.len() {
        assert(stmt_known(ns, ne, b[i]));
        lemma_stmt(t, ret, env, b[i]);
        let (s1, env1, r) = checked(t, ret, env, b[i]);
        lemma_stmts(t, ret, env1, b, i + 1);
        let rest = checked_stmts(t, ret, env1, b, i + 1).0;
        let all = seq![s1] + rest;
        assert forall|k: int| 0 <= k < all.len() implies stmt_known(ns, ne, #[trigger] all[k]) by {
            if k > 0 {
                assert(all[k] == rest[k - 1]);
            }
        }
    }
}

proof fn lemma_loop(t: Tables, ret: Type, env: Env, b: Seq<StmtV>)
    requires
        tables_known(t),
        scopes_known(t.structs.len(), t.enums.len(), env.scopes),
        block_known(t.structs.len(), t.enums.len(), b),
        checked_loop(t, ret, env, b).2 is Ok,
    ensures
        block_known(t.structs.len(), t.enums.len(), checked_loop(t, ret, env, b).0),
        checked_loop(t, ret, env, b).1 == env,
    decreases b, b.len() + 2,
{
    lemma_block(t, ret, Env { in_loop: true, ..env }, b);
    lemma_loop_scopes(t, ret, env, b);
}

proof fn lemma_for(t: Tables, ret: Type, env: Env, var: Seq<char>, ty: Type, b: Seq<StmtV>)
    requires
        tables_known(t),
        scopes_known(t.structs.len(), t.enums.len(), env.scopes),
        known(t.structs.len(), t.enums.len(), ty),
        block_known(t.structs.len(), t.enums.len(), b),
        checked_for(t, ret, env, var, ty, b).2 is Ok,
    ensures
        block_known(t.structs.len(), t.enums.len(), checked_for(t, ret, env, var, ty, b).0),
        checked_for(t, ret, env, var, ty, b).1 == env,
    decreases b, b.len() + 3,
{
    lemma_push_known(t.structs.len(), t.enums.len(), env.scopes);
    lemma_declare_known(t.structs.len(), t.enums.len(), pushed(env.scopes), var, ty);
    let inner = Env { scopes: declare(pushed(env.scopes), var, ty), ..env };
    lemma_loop(t, ret, inner, b);
    lemma_for_scopes(t, ret, env, var, ty, b);
}

proof fn lemma_bound(
    ns: nat,
    ne: nat,
    sc: Scopes,
    names: Seq<Seq<char>>,
    types: Seq<Type>,
    i: int,
)
    requires
        scopes_known(ns, ne, sc),
        sc.len() > 0,
        all_known(ns, ne, types),
        names.len() == types.len(),
        0 <= i,
        bind_all(sc, names, types, i).1 is None,
    ensures
        scopes_known(ns, ne, bind_all(sc, names, types, i).0),
    decreases names.len() - i,
{
    if i < names.len() {
        assert(known(ns, ne, types[i]));
        lemma_declare_known(ns, ne, sc, names[i], types[i]);
        lemma_bound(ns, ne, declare(sc, names[i], types[i]), names, types, i + 1);
    }
}

proof fn lemma_arm(
    t: Tables,
    ret: Type,
    env: Env,
    def: EnumV,
    arm: ArmV,
    covered: Seq<bool>,
    wild: bool,
    line: usize,
)
    requires
        tables_known(t),
        scopes_known(t.structs.len(), t.enums.len(), env.scopes),
        env.scopes.len() > 0,
        enum_known(t.structs.len(), t.enums.len(), def),
        arm_known(t.structs.len(), t.enums.len(), arm),
        checked_arm(t, ret, env, def, arm, covered, wild, line).2 is Ok,
    ensures
        arm_known(
            t.structs.len(),
            t.enums.len(),
            checked_arm(t, ret, env, def, arm, covered, wild, line).0,
        ),
        checked_arm(t, ret, env, def, arm, covered, wild, line).1 == env,
    decreases arm, 0nat,
{
    let ns = t.structs.len();
    let ne = t.enums.len();
    lemma_arm_scopes(t, ret, env, def, arm, covered, wild, line);
    match arm.pattern {
        PatternV::Wildcard => {
            lemma_block(t, ret, env, arm.body);
        },
        PatternV::Variant { name, bindings, types } => {
            let v = def.variant_of(name)->0;
            crate::soundness::lemma_variant_bound(def.variants, name, 0);
            let fields = def.variants[v].fields;
            assert(all_known(ns, ne, fields));
            lemma_push_known(ns, ne, env.scopes);
            lemma_bound(ns, ne, pushed(env.scopes), bindings, fields, 0);
            let scopes1 = bind_all(pushed(env.scopes), bindings, fields, 0).0;
            lemma_block(t, ret, Env { scopes: scopes1, ..env }, arm.body);
        },
    }
}

proof fn lemma_arms(
    t: Tables,
    ret: Type,
    env: Env,
    def: EnumV,
    arms: Seq<ArmV>,
    i: int,
    covered: Seq<bool>,
    wild: bool,
    line: usize,
)
    requires
        tables_known(t),
        scopes_known(t.structs.len(), t.enums.len(), env.scopes),
        env.scopes.len() > 0,
        enum_known(t.structs.len(), t.enums.len(), def),
        arms_known(t.structs.len(), t.enums.len(), arms),
        checked_arms(t, ret, env, def, arms, i, covered, wild, line).2 is Ok,
        0 <= i,
    ensures
        arms_known(
            t.structs.len(),
            t.enums.len(),
            checked_arms(t, ret, env, def, arms, i, covered, wild, line).0,
        ),
        checked_arms(t, ret, env, def, arms, i, covered, wild, line).1 == env,
    decreases arms, arms.len() - i,
{
    let ns = t.structs.len();
    let ne = t.enums.len();
    if i < arms.len() {
        assert(arm_known(ns, ne, arms[i]));
        lemma_arm(t, ret, env, def, arms[i], covered, wild, line);
        let arm1 = checked_arm(t, ret, env, def, arms[i], covered, wild, line).0;
        let covered1 = covering(def, covered, arms[i]);
        let wild1 = wild || arms[i].pattern is Wildcard;
        lemma_arms(t, ret, env, def, arms, i + 1, covered1, wild1, line);
        let rest = checked_arms(t, ret, env, def, arms, i + 1, covered1, wild1, line).0;
        let all = seq![arm1] + rest;
        assert forall|k: int| 0 <= k < all.len() implies arm_known(ns, ne, #[trigger] all[k]) by {
            if k > 0 {
                assert(all[k] == rest[k - 1]);
            }
        }
    }
}

// ----- programs ---------------------------------------------------------------------------------
proof fn lemma_params(ns: nat, ne: nat, sc: Scopes, f: FunctionV, i: int)
    requires
        scopes_known(ns, ne, sc),
        sc.len() > 0,
        params_known(ns, ne, f.params),
        0 <= i,
        bind_params(sc, f.params, i).1 is None,
    ensures
        scopes_known(ns, ne, bind_params(sc, f.params, i).0),
    decreases f.params.len() - i,
{
    if i < f.params.len() {
        let p = f.params[i];
        assert(known(ns, ne, p.ty));
        lemma_declare_known(ns, ne, sc, p.name, p.ty);
        lemma_params(ns, ne, declare(sc, p.name, p.ty), f, i + 1);
    }
}

proof fn lemma_function(st: State, f: FunctionV)
    requires
        tables_known(st.tables),
        function_known(st.tables.structs.len(), st.tables.enums.len(), f),
        checked_function(st, f).2 is Ok,
    ensures
        function_known(
            st.tables.structs.len(),
            st.tables.enums.len(),
            checked_function(st, f).0,
        ),
        checked_function(st, f).1.tables == st.tables,
{
    let ns = st.tables.structs.len();
    let ne = st.tables.enums.len();
    let start: Scopes = seq![Map::empty()];
    let sc = receiver_scope(f);
    assert(scopes_known(ns, ne, start)) by {
        reveal(scopes_known);
    }
    if let Some(recv) = f.recv {
        lemma_declare_known(ns, ne, start, recv.name, recv.ty);
    }
    lemma_params(ns, ne, sc, f, 0);
    let env = Env { scopes: bind_params(sc, f.params, 0).0, in_loop: st.env.in_loop };
    lemma_block(st.tables, f.ret, env, f.body);
}

proof fn lemma_functions(st: State, fs: Seq<FunctionV>, i: int)
    requires
        tables_known(st.tables),
        0 <= i <= fs.len(),
        forall|k: int|
            0 <= k < fs.len() ==> function_known(
                st.tables.structs.len(),
                st.tables.enums.len(),
                #[trigger] fs[k],
            ),
        checked_functions(st, fs, i).2 is Ok,
    ensures
        forall|k: int|
            0 <= k < checked_functions(st, fs, i).0.len() ==> function_known(
                st.tables.structs.len(),
                st.tables.enums.len(),
                #[trigger] checked_functions(st, fs, i).0[k],
            ),
    decreases fs.len() - i,
{
    if i < fs.len() {
        let ns = st.tables.structs.len();
        let ne = st.tables.enums.len();
        assert(function_known(ns, ne, fs[i]));
        lemma_function(st, fs[i]);
        let (f1, st1, r) = checked_function(st, fs[i]);
        lemma_functions(st1, fs, i + 1);
        let rest = checked_functions(st1, fs, i + 1).0;
        let all = checked_functions(st, fs, i).0;
        assert(all == seq![f1] + rest);
        assert forall|k: int| 0 <= k < all.len() implies function_known(
            ns,
            ne,
            #[trigger] all[k],
        ) by {
            if k > 0 {
                assert(all[k] == rest[k - 1]);
            }
        }
    }
}

/// A program that was accepted names only structs and enums that it declares, as
/// it did before: it can be analyzed again.
pub proof fn law_analysis_keeps_declarations(st: State, p: ProgramV)
    requires
        program_known(p),
        names_known(st.tables, p.structs, p.enums),
        analyzed(st, p).2 is Ok,
    ensures
        program_known(analyzed(st, p).0),
{
    lemma_enter_all_known(st.tables, p);
    let st1 = State { tables: enter_all(st.tables, p).0, ..st };
    lemma_functions(st1, p.functions, 0);
}

} // verus!
