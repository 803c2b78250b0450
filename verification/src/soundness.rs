//! What a successful analysis guarantees.
use vstd::prelude::*;
use crate::ast::{law_elem_of_array, ArmV, EnumV, ExprV, KindV, PatternV, StmtV, Type};
use crate::diag::Fault;
use crate::grammar::checked_array;
use crate::typing::{
    all_covered, bind_all, checked, checked_arm, checked_arms, checked_block, checked_each,
    checked_for, checked_if, checked_let, checked_loop, checked_match, checked_range, checked_stmts,
    checked_while, constructs, covering, declare, named, pushed, typed, typed_array, typed_call,
    typed_kind, typed_list, Env, Scopes, Tables, Want,
};

verus! {

// ----- scopes -------------------------------------------------------------------------------
/// Whether two environments differ in the innermost scope alone.
pub open spec fn same_outside(a: Env, b: Env) -> bool {
    &&& a.scopes.len() == b.scopes.len()
    &&& a.scopes.drop_last() == b.scopes.drop_last()
    &&& a.in_loop == b.in_loop
}

proof fn lemma_declare(scopes: Scopes, name: Seq<char>, ty: Type)
    requires
        scopes.len() > 0,
    ensures
        declare(scopes, name, ty).len() == scopes.len(),
        declare(scopes, name, ty).drop_last() == scopes.drop_last(),
{
    assert(declare(scopes, name, ty).drop_last() =~= scopes.drop_last());
}

proof fn lemma_bind_all(scopes: Scopes, names: Seq<Seq<char>>, types: Seq<Type>, i: int)
    requires
        scopes.len() > 0,
    ensures
        bind_all(scopes, names, types, i).0.len() == scopes.len(),
        bind_all(scopes, names, types, i).0.drop_last() == scopes.drop_last(),
    decreases names.len() - i,
{
    if 0 <= i < names.len() {
        lemma_declare(scopes, names[i], types[i]);
        lemma_bind_all(declare(scopes, names[i], types[i]), names, types, i + 1);
    }
}

/// A statement declares in the innermost scope alone.
pub(crate) proof fn lemma_stmt_scopes(t: Tables, ret: Type, env: Env, s: StmtV)
    requires
        env.scopes.len() > 0,
    ensures
        checked(t, ret, env, s).2 is Ok ==> same_outside(checked(t, ret, env, s).1, env),
    decreases s, 2nat,
{
    match s {
        StmtV::Let { name, ty, value, line } => {
            reveal(checked_let);
            assert forall|any: Type| #[trigger]
                declare(env.scopes, name, any).len() == env.scopes.len() && declare(
                    env.scopes,
                    name,
                    any,
                ).drop_last() == env.scopes.drop_last() by {
                lemma_declare(env.scopes, name, any);
            }
        },
        StmtV::If { cond, then_block, else_block } => {
            lemma_block_scopes(t, ret, env, then_block);
            if let Some(b) = else_block {
                let env1 = checked_block(t, ret, env, then_block).1;
                if checked_block(t, ret, env, then_block).2 is Ok {
                    lemma_block_scopes(t, ret, env1, b);
                }
            }
            assert(checked(t, ret, env, s) == checked_if(t, ret, env, s));
        },
        StmtV::While { cond, body } => {
            lemma_loop_scopes(t, ret, env, body);
            assert(checked(t, ret, env, s) == checked_while(t, ret, env, s));
        },
        StmtV::For { var, start, end, body, line } => {
            lemma_for_scopes(t, ret, env, var, Type::Int, body);
            assert(checked(t, ret, env, s) == checked_range(t, ret, env, s));
        },
        StmtV::ForEach { var, iterable, body, line } => {
            if let Ok(it) = typed(t, env.scopes, iterable).1 {
                if let Some(elem) = it.elem() {
                    lemma_for_scopes(t, ret, env, var, elem, body);
                }
            }
            assert(checked(t, ret, env, s) == checked_each(t, ret, env, s));
        },
        StmtV::Match { scrutinee, arms, line } => {
            if let Ok(Type::Enum(id)) = typed(t, env.scopes, scrutinee).1 {
                let def = t.enums[id as int];
                lemma_arms_scopes(
                    t,
                    ret,
                    env,
                    def,
                    arms,
                    0,
                    Seq::new(def.variants.len(), |i: int| false),
                    false,
                    line,
                );
            }
            assert(checked(t, ret, env, s) == checked_match(t, ret, env, s));
        },
        _ => {},
    }
}

pub(crate) proof fn lemma_block_scopes(t: Tables, ret: Type, env: Env, b: Seq<StmtV>)
    ensures
        checked_block(t, ret, env, b).2 is Ok ==> checked_block(t, ret, env, b).1 == env,
    decreases b, b.len() + 1,
{
    let inner = Env { scopes: pushed(env.scopes), ..env };
    lemma_stmts_scopes(t, ret, inner, b, 0);
    assert(pushed(env.scopes).drop_last() =~= env.scopes);
}

proof fn lemma_stmts_scopes(t: Tables, ret: Type, env: Env, b: Seq<StmtV>, i: int)
    requires
        env.scopes.len() > 0,
        0 <= i,
    ensures
        checked_stmts(t, ret, env, b, i).2 is Ok ==> same_outside(
            checked_stmts(t, ret, env, b, i).1,
            env,
        ),
    decreases b, b.len() - i,
{
    if i < b.len() {
        lemma_stmt_scopes(t, ret, env, b[i]);
        let (s, env1, r) = checked(t, ret, env, b[i]);
        if r is Ok {
            lemma_stmts_scopes(t, ret, env1, b, i + 1);
        }
    }
}

pub(crate) proof fn lemma_loop_scopes(t: Tables, ret: Type, env: Env, b: Seq<StmtV>)
    ensures
        checked_loop(t, ret, env, b).2 is Ok ==> checked_loop(t, ret, env, b).1 == env,
    decreases b, b.len() + 2,
{
    lemma_block_scopes(t, ret, Env { in_loop: true, ..env }, b);
}

pub(crate) proof fn lemma_for_scopes(
    t: Tables,
    ret: Type,
    env: Env,
    var: Seq<char>,
    ty: Type,
    b: Seq<StmtV>,
)
    ensures
        checked_for(t, ret, env, var, ty, b).2 is Ok ==> checked_for(t, ret, env, var, ty, b).1
            == env,
    decreases b, b.len() + 3,
{
    let scopes = declare(pushed(env.scopes), var, ty);
    lemma_declare(pushed(env.scopes), var, ty);
    assert(pushed(env.scopes).drop_last() =~= env.scopes);
    lemma_loop_scopes(t, ret, Env { scopes, ..env }, b);
}

pub(crate) proof fn lemma_arm_scopes(
    t: Tables,
    ret: Type,
    env: Env,
    def: EnumV,
    arm: ArmV,
    covered: Seq<bool>,
    wild: bool,
    line: usize,
)
    requires
        env.scopes.len() > 0,
    ensures
        checked_arm(t, ret, env, def, arm, covered, wild, line).2 is Ok ==> checked_arm(
            t,
            ret,
            env,
            def,
            arm,
            covered,
            wild,
            line,
        ).1 == env,
    decreases arm, 1nat,
{
    match arm.pattern {
        PatternV::Wildcard => {
            lemma_block_scopes(t, ret, env, arm.body);
        },
        PatternV::Variant { name, bindings, types } => {
            if let Some(v) = def.variant_of(name) {
                let fields = def.variants[v].fields;
                let scopes1 = bind_all(pushed(env.scopes), bindings, fields, 0).0;
                lemma_bind_all(pushed(env.scopes), bindings, fields, 0);
                assert(pushed(env.scopes).drop_last() =~= env.scopes);
                lemma_block_scopes(t, ret, Env { scopes: scopes1, ..env }, arm.body);
            }
        },
    }
}

pub(crate) proof fn lemma_arms_scopes(
    t: Tables,
    ret: Type,
    env: Env,
    def: EnumV,
    arms: Seq<ArmV>,
    i: int,
    covered: Seq<bool>,
    wild: bool,
    line: usize,
)
    requires
        env.scopes.len() > 0,
        0 <= i,
    ensures
        checked_arms(t, ret, env, def, arms, i, covered, wild, line).2 is Ok ==> checked_arms(
            t,
            ret,
            env,
            def,
            arms,
            i,
            covered,
            wild,
            line,
        ).1 == env,
    decreases arms, arms.len() - i,
{
    if i < arms.len() {
        lemma_arm_scopes(t, ret, env, def, arms[i], covered, wild, line);
        let (arm, env1, r) = checked_arm(t, ret, env, def, arms[i], covered, wild, line);
        if r is Ok {
            lemma_arms_scopes(
                t,
                ret,
                env1,
                def,
                arms,
                i + 1,
                covering(def, covered, arms[i]),
                wild || arms[i].pattern is Wildcard,
                line,
            );
        }
    }
}

/// What a block declares expires with it: behind a block that was accepted,
/// the variables in scope are those before it.
pub proof fn law_blocks_expire(t: Tables, ret: Type, env: Env, b: Seq<StmtV>)
    ensures
        checked_block(t, ret, env, b).2 is Ok ==> checked_block(t, ret, env, b).1 == env,
{
    lemma_block_scopes(t, ret, env, b);
}

// ----- matches --------------------------------------------------------------------------------
/// Whether an arm names the variant at position `v`, or any.
pub open spec fn accepts(def: EnumV, arm: ArmV, v: int) -> bool {
    match arm.pattern {
        PatternV::Wildcard => true,
        PatternV::Variant { name, bindings, types } => def.variant_of(name) == Some(v),
    }
}

pub(crate) proof fn lemma_variant_bound(variants: Seq<crate::ast::VariantV>, name: Seq<char>,
    i: int)
    requires
        0 <= i,
    ensures
        crate::ast::variant_from(variants, name, i) matches Some(v) ==> i <= v < variants.len(),
    decreases variants.len() - i,
{
    if i < variants.len() && variants[i].name != name {
        lemma_variant_bound(variants, name, i + 1);
    }
}

proof fn lemma_exhaustive(
    t: Tables,
    ret: Type,
    env: Env,
    def: EnumV,
    arms: Seq<ArmV>,
    i: int,
    covered: Seq<bool>,
    wild: bool,
    line: usize,
    v: int,
)
    requires
        0 <= i <= arms.len(),
        covered.len() == def.variants.len(),
        0 <= v < def.variants.len(),
        checked_arms(t, ret, env, def, arms, i, covered, wild, line).2 is Ok,
        wild || covered[v] ==> exists|k: int| 0 <= k < i && accepts(def, #[trigger] arms[k], v),
    ensures
        exists|k: int| 0 <= k < arms.len() && accepts(def, #[trigger] arms[k], v),
    decreases arms.len() - i,
{
    if i < arms.len() {
        let (arm, env1, r) = checked_arm(t, ret, env, def, arms[i], covered, wild, line);
        let more = covering(def, covered, arms[i]);
        let any = wild || arms[i].pattern is Wildcard;
        if let PatternV::Variant { name, bindings, types } = arms[i].pattern {
            lemma_variant_bound(def.variants, name, 0);
        }
        if (any || more[v]) && !(wild || covered[v]) {
            assert(accepts(def, arms[i], v));
        }
        lemma_exhaustive(t, ret, env1, def, arms, i + 1, more, any, line, v);
    } else {
        if !wild {
            assert(all_covered(covered));
            assert(covered[v]);
        }
    }
}

/// A match that was accepted has an arm for every variant.
pub proof fn law_matches_are_exhaustive(
    t: Tables,
    ret: Type,
    env: Env,
    scrutinee: ExprV,
    arms: Seq<ArmV>,
    line: usize,
    id: u32,
    v: int,
)
    requires
        checked(t, ret, env, StmtV::Match { scrutinee, arms, line }).2 is Ok,
        typed(t, env.scopes, scrutinee).1 == Ok::<Type, Fault>(Type::Enum(id)),
        0 <= v < t.enums[id as int].variants.len(),
    ensures
        exists|k: int|
            0 <= k < arms.len() && accepts(t.enums[id as int], #[trigger] arms[k], v),
{
    let s = StmtV::Match { scrutinee, arms, line };
    let def = t.enums[id as int];
    assert(checked(t, ret, env, s) == checked_match(t, ret, env, s));
    let none = Seq::new(def.variants.len(), |i: int| false);
    lemma_exhaustive(t, ret, env, def, arms, 0, none, false, line, v);
}

// ----- types ------------------------------------------------------------------------------------
/// Whether every expression in a tree has its type.
pub open spec fn all_typed(e: ExprV) -> bool
    decreases e,
{
    e.ty is Some && parts_typed(e.kind)
}

pub open spec fn parts_typed(k: KindV) -> bool
    decreases k,
{
    match k {
        KindV::Unary(_, a) => all_typed(*a),
        KindV::Binary(a, _, b) => all_typed(*a) && all_typed(*b),
        KindV::Call(_, args) => each_typed(args),
        KindV::MethodCall(r, _, args) => all_typed(*r) && each_typed(args),
        KindV::ArrayLit(es) => each_typed(es),
        KindV::Index(a, b) => all_typed(*a) && all_typed(*b),
        KindV::Field(a, _) => all_typed(*a),
        KindV::EnumInit(_, _, args) => each_typed(args),
        _ => true,
    }
}

pub open spec fn each_typed(es: Seq<ExprV>) -> bool
    decreases es,
{
    forall|i: int| 0 <= i < es.len() ==> all_typed(#[trigger] es[i])
}

/// Whether the constructors that were resolved before have typed payloads; the
/// parser leaves none.
pub open spec fn fresh(e: ExprV) -> bool
    decreases e,
{
    fresh_parts(e.kind)
}

pub open spec fn fresh_parts(k: KindV) -> bool
    decreases k,
{
    match k {
        KindV::Unary(_, a) => fresh(*a),
        KindV::Binary(a, _, b) => fresh(*a) && fresh(*b),
        KindV::Call(_, args) => all_fresh(args),
        KindV::MethodCall(r, _, args) => fresh(*r) && all_fresh(args),
        KindV::ArrayLit(es) => all_fresh(es),
        KindV::Index(a, b) => fresh(*a) && fresh(*b),
        KindV::Field(a, _) => fresh(*a),
        KindV::EnumInit(_, _, args) => each_typed(args),
        _ => true,
    }
}

pub open spec fn all_fresh(es: Seq<ExprV>) -> bool
    decreases es,
{
    forall|i: int| 0 <= i < es.len() ==> fresh(#[trigger] es[i])
}

proof fn lemma_typed(t: Tables, sc: Scopes, e: ExprV)
    requires
        fresh(e),
    ensures
        typed(t, sc, e).1 matches Ok(ty) ==> typed(t, sc, e).0.ty == Some(ty) && all_typed(
            typed(t, sc, e).0,
        ),
    decreases e, 0nat,
{
    assert(fresh_parts(e.kind));
    match constructs(t, sc, e) {
        Some((eid, vid)) => {
            let fields = t.enums[eid as int].variants[vid as int].fields;
            if let KindV::Call(name, args) = e.kind {
                lemma_typed_list(t, sc, args, Want::Payload { name, fields }, 0);
            }
            let e1 = typed(t, sc, e).0;
            if typed(t, sc, e).1 is Ok {
                assert(parts_typed(e1.kind));
            }
        },
        None => {
            lemma_typed_kind(t, sc, e.kind, e.span);
        },
    }
}

proof fn lemma_typed_kind(t: Tables, sc: Scopes, k: KindV, span: crate::diag::Span)
    requires
        fresh_parts(k),
    ensures
        typed_kind(t, sc, k, span).1 is Ok ==> parts_typed(typed_kind(t, sc, k, span).0),
    decreases k, 3nat,
{
    match k {
        KindV::Unary(op, a) => {
            lemma_typed(t, sc, *a);
        },
        KindV::Binary(a, op, b) => {
            lemma_typed(t, sc, *a);
            lemma_typed(t, sc, *b);
        },
        KindV::Call(name, args) => {
            lemma_typed_call(t, sc, name, args, span);
        },
        KindV::MethodCall(recv, name, args) => {
            lemma_typed(t, sc, *recv);
            if let Ok(rt) = typed(t, sc, *recv).1 {
                if let Type::Struct(id) = rt {
                    if t.methods[id as int].contains_key(name) {
                        let sig = t.methods[id as int][name];
                        lemma_typed_list(t, sc, args, Want::Method { name, sig }, 0);
                    }
                }
            }
        },
        KindV::ArrayLit(es) => {
            lemma_typed_array(t, sc, es, span);
        },
        KindV::Index(a, b) => {
            lemma_typed(t, sc, *a);
            lemma_typed(t, sc, *b);
        },
        KindV::Field(a, name) => {
            lemma_typed(t, sc, *a);
        },
        _ => {},
    }
}

proof fn lemma_typed_call(
    t: Tables,
    sc: Scopes,
    name: Seq<char>,
    args: Seq<ExprV>,
    span: crate::diag::Span,
)
    requires
        all_fresh(args),
    ensures
        typed_call(t, sc, name, args, span).1 is Ok ==> each_typed(
            typed_call(t, sc, name, args, span).0,
        ),
    decreases args, args.len() + 2,
{
    if crate::typing::builtin(name) {
        if args.len() == crate::typing::builtin_arity(name) {
            if name == "find"@ {
                lemma_typed_list(t, sc, args, Want::Find, 0);
            } else {
                lemma_typed(t, sc, args[0]);
                if name == "push"@ {
                    lemma_typed(t, sc, args[1]);
                }
            }
        }
    } else if t.struct_ids.contains_key(name) {
        let def = t.structs[t.struct_ids[name] as int];
        lemma_typed_list(t, sc, args, Want::Fields { def }, 0);
    } else if t.functions.contains_key(name) {
        let sig = t.functions[name];
        lemma_typed_list(t, sc, args, Want::Params { name, sig, span }, 0);
    }
}

proof fn lemma_typed_array(t: Tables, sc: Scopes, es: Seq<ExprV>, span: crate::diag::Span)
    requires
        all_fresh(es),
    ensures
        typed_array(t, sc, es, span).1 is Ok ==> each_typed(typed_array(t, sc, es, span).0),
    decreases es, es.len() + 2,
{
    if es.len() > 0 {
        lemma_typed(t, sc, es[0]);
        if let Ok(ty) = typed(t, sc, es[0]).1 {
            if checked_array(ty) is Some {
                lemma_typed_list(t, sc, es, Want::Elems { first: ty }, 1);
                let first = typed(t, sc, es[0]).0;
                let rest = typed_list(t, sc, es, Want::Elems { first: ty }, 1).0;
                let all = seq![first] + rest;
                if typed_array(t, sc, es, span).1 is Ok {
                    assert forall|i: int| 0 <= i < all.len() implies all_typed(
                        #[trigger] all[i],
                    ) by {
                        if i > 0 {
                            assert(all[i] == rest[i - 1]);
                        }
                    }
                }
            }
        }
    }
}

proof fn lemma_typed_list(t: Tables, sc: Scopes, es: Seq<ExprV>, w: Want, i: int)
    requires
        all_fresh(es),
        0 <= i,
    ensures
        typed_list(t, sc, es, w, i).1 is Ok ==> each_typed(typed_list(t, sc, es, w, i).0),
    decreases es, es.len() - i,
{
    if i < es.len() {
        lemma_typed(t, sc, es[i]);
        lemma_typed_list(t, sc, es, w, i + 1);
        let e = typed(t, sc, es[i]).0;
        let rest = typed_list(t, sc, es, w, i + 1).0;
        let all = seq![e] + rest;
        if typed_list(t, sc, es, w, i).1 is Ok {
            assert forall|k: int| 0 <= k < all.len() implies all_typed(#[trigger] all[k]) by {
                if k > 0 {
                    assert(all[k] == rest[k - 1]);
                }
            }
        }
    }
}

/// An expression that was accepted carries its type, and so does every
/// expression in it.
pub proof fn law_expressions_are_typed(t: Tables, sc: Scopes, e: ExprV)
    requires
        fresh(e),
    ensures
        typed(t, sc, e).1 matches Ok(ty) ==> typed(t, sc, e).0.ty == Some(ty) && all_typed(
            typed(t, sc, e).0,
        ),
{
    lemma_typed(t, sc, e);
}

// ----- the names of types -----------------------------------------------------------------------
/// A type is shown by the name that the program gave it: a struct and an enum by
/// its own, and an array by that of its elements in brackets.
pub proof fn law_types_are_shown_by_name(t: Tables, ty: Type)
    requires
        ty.wf(),
    ensures
        ty matches Type::Struct(id) ==> named(t, ty) == t.structs[id as int].name,
        ty matches Type::Enum(id) ==> named(t, ty) == t.enums[id as int].name,
        ty.elem() matches Some(elem) ==> named(t, ty) == "["@ + named(t, elem) + "]"@,
        ty.nestable() ==> (Type::arrays_of(ty) matches Some(array) ==> named(t, array) == "["@
            + named(t, ty) + "]"@),
{
    if ty.nestable() && ty != Type::Unit {
        law_elem_of_array(ty);
    }
}

} // verus!
