//! The rules that statements follow, as a property of them and of what is
//! declared round them. The analysis accepts the statements of a function just
//! where they follow the rules.
use vstd::prelude::*;
use crate::ast::{ArmV, EnumV, ExprV, FunctionV, KindV, ParamV, PatternV, StmtV, Type};
use crate::diag::Fault;
use crate::rules::{
    declared_as, field_has, has_type, law_expressions_follow_the_rules, lemma_fields, lemma_lookup,
};
use crate::typing::{
    all_covered, bind_all, bind_params, checked, checked_arm, checked_arms, checked_assign,
    checked_block, checked_field_assign, checked_for, checked_function, checked_index_assign,
    checked_let, checked_loop, checked_return, checked_stmts, covering, declare, lookup, pushed,
    receiver_scope, typed, Env, Scopes, State, Tables,
};

verus! {

// ----- the rules ---------------------------------------------------------------------------------
/// Whether a binding has a type: that of its value, which is the annotated one if
/// there is an annotation, and never that of no value; an empty array takes the
/// array type of the annotation.
pub open spec fn binds(
    t: Tables,
    sc: Scopes,
    annotated: Option<Type>,
    value: ExprV,
    ty: Type,
) -> bool {
    if value.kind matches KindV::ArrayLit(es) && es.len() == 0 {
        annotated == Some(ty) && ty is Array
    } else {
        has_type(t, sc, value, ty) && ty != Type::Unit && (annotated is None || annotated == Some(
            ty,
        ))
    }
}

/// What is declared behind a statement: a binding adds its name to the innermost
/// scope.
pub open spec fn after(t: Tables, sc: Scopes, s: StmtV) -> Scopes {
    match s {
        StmtV::Let { name, ty, value, .. } => sc.drop_last().push(
            sc.last().insert(name, choose|b: Type| binds(t, sc, ty, value, b)),
        ),
        _ => sc,
    }
}

/// Whether a statement follows the rules: `ret` is what the function returns,
/// `looping` says whether a loop is round the statement, `sc` what is declared.
pub open spec fn follows(t: Tables, ret: Type, looping: bool, sc: Scopes, s: StmtV) -> bool
    decreases s, 0nat,
{
    match s {
        StmtV::Let { name, ty, value, .. } => !sc.last().contains_key(name) && exists|b: Type|
            #[trigger] binds(t, sc, ty, value, b),
        StmtV::Assign { name, value, .. } => exists|b: Type| #[trigger]
            declared_as(sc, name, b) && has_type(t, sc, value, b),
        StmtV::IndexAssign { target, index, value, .. } => has_type(t, sc, index, Type::Int)
            && exists|a: Type| #[trigger]
            has_type(t, sc, target, a) && a is Array && has_type(t, sc, value, a.elem()->0),
        StmtV::FieldAssign { target, field, value, .. } => exists|id: u32, b: Type|
            #![trigger has_type(t, sc, target, Type::Struct(id)), has_type(t, sc, value, b)]
            has_type(t, sc, target, Type::Struct(id)) && field_has(
                t.structs[id as int].fields,
                field,
                b,
            ) && has_type(t, sc, value, b),
        StmtV::Expr(e) => exists|b: Type| #[trigger] has_type(t, sc, e, b),
        StmtV::Return { value: Some(e), .. } => has_type(t, sc, e, ret),
        StmtV::Return { value: None, .. } => ret == Type::Unit,
        StmtV::If { cond, then_block, else_block } => {
            &&& has_type(t, sc, cond, Type::Bool)
            &&& block_follows(t, ret, looping, sc, then_block)
            &&& else_block matches Some(b) ==> block_follows(t, ret, looping, sc, b)
        },
        StmtV::While { cond, body } => has_type(t, sc, cond, Type::Bool) && block_follows(
            t,
            ret,
            true,
            sc,
            body,
        ),
        StmtV::For { var, start, end, body, .. } => {
            &&& has_type(t, sc, start, Type::Int)
            &&& has_type(t, sc, end, Type::Int)
            &&& block_follows(t, ret, true, sc.push(map![var => Type::Int]), body)
        },
        StmtV::ForEach { var, iterable, body, .. } => exists|a: Type| #[trigger]
            has_type(t, sc, iterable, a) && a is Array && block_follows(
                t,
                ret,
                true,
                sc.push(map![var => a.elem()->0]),
                body,
            ),
        StmtV::Match { scrutinee, arms, .. } => exists|id: u32| #[trigger]
            has_type(t, sc, scrutinee, Type::Enum(id)) && arms_follow(
                t,
                ret,
                looping,
                sc,
                t.enums[id as int],
                arms,
            ),
        StmtV::Break { .. } | StmtV::Continue { .. } => looping,
        StmtV::Retain(_) | StmtV::Release(_) => true,
    }
}

/// Whether the statements of a block follow the rules, in a scope of their own.
pub open spec fn block_follows(
    t: Tables,
    ret: Type,
    looping: bool,
    sc: Scopes,
    b: Seq<StmtV>,
) -> bool
    decreases b, b.len() + 1,
{
    rest_follows(t, ret, looping, sc.push(Map::empty()), b, 0)
}

/// Whether the statements from the `i`th on follow the rules, one behind the other.
pub open spec fn rest_follows(
    t: Tables,
    ret: Type,
    looping: bool,
    sc: Scopes,
    b: Seq<StmtV>,
    i: int,
) -> bool
    decreases b, b.len() - i,
{
    0 <= i < b.len() ==> follows(t, ret, looping, sc, b[i]) && rest_follows(
        t,
        ret,
        looping,
        after(t, sc, b[i]),
        b,
        i + 1,
    )
}

/// Whether a variant has that name, and is the first to have it.
pub open spec fn is_variant(def: EnumV, name: Seq<char>, v: int) -> bool {
    &&& 0 <= v < def.variants.len()
    &&& def.variants[v].name == name
    &&& forall|u: int| 0 <= u < v ==> (#[trigger] def.variants[u]).name != name
}

/// Whether an arm is for a variant.
pub open spec fn handles(def: EnumV, arm: ArmV, v: int) -> bool {
    arm.pattern matches PatternV::Variant { name, .. } && is_variant(def, name, v)
}

/// The scope in which the first `n` names have their types.
pub open spec fn scope_of(names: Seq<Seq<char>>, types: Seq<Type>, n: nat) -> Map<Seq<char>, Type>
    decreases n,
{
    if n == 0 {
        Map::empty()
    } else {
        scope_of(names, types, (n - 1) as nat).insert(names[n - 1], types[n - 1])
    }
}

/// Whether an arm follows the rules: it names a variant, binds as many names as
/// that carries values, no name twice, and its body follows the rules with them.
pub open spec fn arm_follows(
    t: Tables,
    ret: Type,
    looping: bool,
    sc: Scopes,
    def: EnumV,
    arm: ArmV,
) -> bool
    decreases arm, 0nat,
{
    match arm.pattern {
        PatternV::Wildcard => block_follows(t, ret, looping, sc, arm.body),
        PatternV::Variant { name, bindings, .. } => exists|v: int| #[trigger]
            is_variant(def, name, v) && bindings.len() == def.variants[v].fields.len()
                && bindings.no_duplicates() && block_follows(
                t,
                ret,
                looping,
                sc.push(scope_of(bindings, def.variants[v].fields, bindings.len())),
                arm.body,
            ),
    }
}

/// Whether the arms of a match follow the rules: each does, no two are for the
/// same, and each variant is handled, or what is left over is.
pub open spec fn arms_follow(
    t: Tables,
    ret: Type,
    looping: bool,
    sc: Scopes,
    def: EnumV,
    arms: Seq<ArmV>,
) -> bool
    decreases arms, 0nat,
{
    &&& forall|i: int|
        0 <= i < arms.len() ==> arm_follows(t, ret, looping, sc, def, #[trigger] arms[i])
    &&& forall|i: int, j: int|
        0 <= i < j < arms.len() ==> apart(def, #[trigger] arms[i], #[trigger] arms[j])
    &&& exhaust(def, arms)
}

/// Whether two arms are not for the same.
pub open spec fn apart(def: EnumV, a: ArmV, b: ArmV) -> bool {
    &&& !(a.pattern is Wildcard && b.pattern is Wildcard)
    &&& forall|v: int| #[trigger] handles(def, a, v) ==> !handles(def, b, v)
}

/// Whether arms leave nothing out.
pub open spec fn exhaust(def: EnumV, arms: Seq<ArmV>) -> bool {
    ||| exists|i: int| 0 <= i < arms.len() && (#[trigger] arms[i]).pattern is Wildcard
    ||| forall|v: int|
        0 <= v < def.variants.len() ==> handled(def, arms, arms.len() as int, #[trigger]
            any_variant(v))
}

pub open spec fn any_variant(v: int) -> int {
    v
}

/// Whether one of the first `n` arms is for a variant.
pub open spec fn handled(def: EnumV, arms: Seq<ArmV>, n: int, v: int) -> bool {
    exists|i: int| 0 <= i < n && handles(def, #[trigger] arms[i], v)
}

// ----- the analysis follows them -----------------------------------------------------------------
proof fn lemma_types(t: Tables, sc: Scopes, e: ExprV)
    ensures
        forall|ty: Type| #[trigger]
            has_type(t, sc, e, ty) <==> typed(t, sc, e).1 == Ok::<Type, Fault>(ty),
        typed(t, sc, e).1 matches Ok(ty) ==> has_type(t, sc, e, ty),
{
    assert forall|ty: Type| #[trigger]
        has_type(t, sc, e, ty) <==> typed(t, sc, e).1 == Ok::<Type, Fault>(ty) by {
        law_expressions_follow_the_rules(t, sc, e, ty);
    }
}

proof fn lemma_let(t: Tables, env: Env, name: Seq<char>, ty: Option<Type>, value: ExprV,
    line: usize)
    ensures
        ({
            let s = StmtV::Let { name, ty, value, line };
            let (s1, env1, r) = checked_let(t, env, name, ty, value, line);
            &&& r is Ok <==> follows(t, Type::Unit, false, env.scopes, s)
            &&& r is Ok ==> env1 == (Env { scopes: after(t, env.scopes, s), ..env })
        }),
{
    reveal(checked_let);
    lemma_types(t, env.scopes, value);
    let (s1, env1, r) = checked_let(t, env, name, ty, value, line);
    if r is Ok {
        let b = env1.scopes.last()[name];
        assert(binds(t, env.scopes, ty, value, b));
        let c = choose|b: Type| binds(t, env.scopes, ty, value, b);
        assert(binds(t, env.scopes, ty, value, c));
        assert(b == c);
    }
}

proof fn lemma_stores(t: Tables, env: Env, s: StmtV)
    requires
        s is Assign || s is IndexAssign || s is FieldAssign,
    ensures
        checked(t, Type::Unit, env, s).2 is Ok <==> follows(t, Type::Unit, false, env.scopes, s),
        checked(t, Type::Unit, env, s).1 == env,
{
    let sc = env.scopes;
    match s {
        StmtV::Assign { name, value, line } => {
            reveal(checked_assign);
            lemma_types(t, sc, value);
            assert forall|b: Type| #[trigger] declared_as(sc, name, b) <==> lookup(sc, name)
                == Some(b) by {
                lemma_lookup(sc, name, b);
            }
            if let Some(b) = lookup(sc, name) {
                assert(declared_as(sc, name, b));
            }
        },
        StmtV::IndexAssign { target, index, value, line } => {
            reveal(checked_index_assign);
            lemma_types(t, sc, target);
            lemma_types(t, sc, index);
            lemma_types(t, sc, value);
            assert(has_type(t, sc, index, Type::Int) <==> typed(t, sc, index).1 == Ok::<
                Type,
                Fault,
            >(Type::Int));
        },
        StmtV::FieldAssign { target, field, value, line } => {
            reveal(checked_field_assign);
            lemma_types(t, sc, target);
            lemma_types(t, sc, value);
            if let Ok(Type::Struct(id)) = typed(t, sc, target).1 {
                let fields = t.structs[id as int].fields;
                assert forall|b: Type| #[trigger] has_type(t, sc, value, b) implies (field_has(
                    fields,
                    field,
                    b,
                ) <==> (t.structs[id as int].field_of(field) matches Some((k, found)) && found
                    == b)) by {
                    lemma_fields(fields, field, 0, b);
                }
            }
        },
        _ => {},
    }
}

proof fn lemma_statement(t: Tables, ret: Type, env: Env, s: StmtV)
    ensures
        checked(t, ret, env, s).2 is Ok <==> follows(t, ret, env.in_loop, env.scopes, s),
        checked(t, ret, env, s).2 is Ok ==> checked(t, ret, env, s).1 == (Env {
            scopes: after(t, env.scopes, s),
            ..env
        }),
    decreases s, 1nat,
{
    let sc = env.scopes;
    match s {
        StmtV::Let { name, ty, value, line } => {
            lemma_let(t, env, name, ty, value, line);
        },
        StmtV::Assign { .. } | StmtV::IndexAssign { .. } | StmtV::FieldAssign { .. } => {
            lemma_stores(t, env, s);
        },
        StmtV::Expr(e) => {
            lemma_types(t, sc, e);
        },
        StmtV::Return { value, line } => {
            reveal(checked_return);
            if let Some(e) = value {
                lemma_types(t, sc, e);
                assert(has_type(t, sc, e, ret) <==> typed(t, sc, e).1 == Ok::<Type, Fault>(ret));
            }
        },
        StmtV::If { cond, then_block, else_block } => {
            lemma_types(t, sc, cond);
            assert(has_type(t, sc, cond, Type::Bool) <==> typed(t, sc, cond).1 == Ok::<
                Type,
                Fault,
            >(Type::Bool));
            lemma_block(t, ret, env, then_block);
            if let Some(b) = else_block {
                lemma_block(t, ret, env, b);
            }
        },
        StmtV::While { cond, body } => {
            lemma_types(t, sc, cond);
            assert(has_type(t, sc, cond, Type::Bool) <==> typed(t, sc, cond).1 == Ok::<
                Type,
                Fault,
            >(Type::Bool));
            lemma_loop(t, ret, env, body);
        },
        StmtV::For { var, start, end, body, line } => {
            lemma_types(t, sc, start);
            lemma_types(t, sc, end);
            assert(has_type(t, sc, start, Type::Int) <==> typed(t, sc, start).1 == Ok::<
                Type,
                Fault,
            >(Type::Int));
            assert(has_type(t, sc, end, Type::Int) <==> typed(t, sc, end).1 == Ok::<Type, Fault>(
                Type::Int,
            ));
            lemma_for(t, ret, env, var, Type::Int, body);
        },
        StmtV::ForEach { var, iterable, body, line } => {
            lemma_types(t, sc, iterable);
            if let Ok(a) = typed(t, sc, iterable).1 {
                if let Some(elem) = a.elem() {
                    lemma_for(t, ret, env, var, elem, body);
                }
            }
        },
        StmtV::Match { scrutinee, arms, line } => {
            lemma_types(t, sc, scrutinee);
            if let Ok(Type::Enum(id)) = typed(t, sc, scrutinee).1 {
                lemma_match(t, ret, env, t.enums[id as int], arms, line);
                assert(has_type(t, sc, scrutinee, Type::Enum(id)));
            }
        },
        _ => {},
    }
}

proof fn lemma_block(t: Tables, ret: Type, env: Env, b: Seq<StmtV>)
    ensures
        checked_block(t, ret, env, b).2 is Ok <==> block_follows(
            t,
            ret,
            env.in_loop,
            env.scopes,
            b,
        ),
        checked_block(t, ret, env, b).2 is Ok ==> checked_block(t, ret, env, b).1 == env,
    decreases b, b.len() + 1,
{
    let inner = Env { scopes: pushed(env.scopes), ..env };
    lemma_rest(t, ret, inner, b, 0);
    if checked_block(t, ret, env, b).2 is Ok {
        assert(inner.scopes.drop_last() =~= env.scopes);
    }
}

proof fn lemma_rest(t: Tables, ret: Type, env: Env, b: Seq<StmtV>, i: int)
    requires
        0 <= i <= b.len(),
        env.scopes.len() > 0,
    ensures
        checked_stmts(t, ret, env, b, i).2 is Ok <==> rest_follows(
            t,
            ret,
            env.in_loop,
            env.scopes,
            b,
            i,
        ),
        checked_stmts(t, ret, env, b, i).2 is Ok ==> {
            let env1 = checked_stmts(t, ret, env, b, i).1;
            env1.in_loop == env.in_loop && env1.scopes.len() == env.scopes.len()
                && env1.scopes.drop_last() == env.scopes.drop_last()
        },
    decreases b, b.len() - i,
{
    if i < b.len() {
        lemma_statement(t, ret, env, b[i]);
        let env1 = Env { scopes: after(t, env.scopes, b[i]), ..env };
        lemma_rest(t, ret, env1, b, i + 1);
        assert(env1.scopes.drop_last() =~= env.scopes.drop_last());
    }
}

proof fn lemma_loop(t: Tables, ret: Type, env: Env, b: Seq<StmtV>)
    ensures
        checked_loop(t, ret, env, b).2 is Ok <==> block_follows(t, ret, true, env.scopes, b),
        checked_loop(t, ret, env, b).2 is Ok ==> checked_loop(t, ret, env, b).1 == env,
    decreases b, b.len() + 2,
{
    lemma_block(t, ret, Env { in_loop: true, ..env }, b);
}

proof fn lemma_for(t: Tables, ret: Type, env: Env, var: Seq<char>, ty: Type, b: Seq<StmtV>)
    ensures
        checked_for(t, ret, env, var, ty, b).2 is Ok <==> block_follows(
            t,
            ret,
            true,
            env.scopes.push(map![var => ty]),
            b,
        ),
        checked_for(t, ret, env, var, ty, b).2 is Ok ==> checked_for(t, ret, env, var, ty, b).1
            == env,
    decreases b, b.len() + 3,
{
    let sc = env.scopes.push(map![var => ty]);
    assert(declare(pushed(env.scopes), var, ty) =~= sc) by {
        assert(pushed(env.scopes).drop_last() =~= env.scopes);
    }
    lemma_loop(t, ret, Env { scopes: sc, ..env }, b);
    assert(sc.drop_last() =~= env.scopes);
}

proof fn lemma_variant(def: EnumV, name: Seq<char>, i: int)
    requires
        0 <= i <= def.variants.len(),
        forall|u: int| 0 <= u < i ==> (#[trigger] def.variants[u]).name != name,
    ensures
        forall|v: int| #[trigger]
            is_variant(def, name, v) <==> crate::ast::variant_from(def.variants, name, i) == Some(
                v,
            ),
    decreases def.variants.len() - i,
{
    if i < def.variants.len() && def.variants[i].name != name {
        lemma_variant(def, name, i + 1);
    }
}

proof fn lemma_bind_all(sc: Scopes, names: Seq<Seq<char>>, types: Seq<Type>, i: int)
    requires
        0 <= i <= names.len(),
        names.take(i).no_duplicates(),
    ensures
        ({
            let here = sc.push(scope_of(names, types, i as nat));
            let all = sc.push(scope_of(names, types, names.len()));
            let (sc1, twice) = bind_all(here, names, types, i);
            &&& twice is None <==> names.no_duplicates()
            &&& twice is None ==> sc1 == all
        }),
    decreases names.len() - i,
{
    let here = sc.push(scope_of(names, types, i as nat));
    lemma_scope(names, types, i as nat);
    if i == names.len() {
        assert(names.take(i) =~= names);
    } else if here.last().contains_key(names[i]) {
        let k = choose|k: int| 0 <= k < i && names[k] == names[i];
        assert(!names.no_duplicates());
    } else {
        let next = sc.push(scope_of(names, types, (i + 1) as nat));
        assert(declare(here, names[i], types[i]) =~= next);
        let more = names.take(i + 1);
        assert forall|a: int, b: int|
            0 <= a < more.len() && 0 <= b < more.len() && a != b implies #[trigger] more[a]
            != #[trigger] more[b] by {
            if a < i && b < i {
                assert(names.take(i)[a] != names.take(i)[b]);
            }
        }
        lemma_bind_all(sc, names, types, i + 1);
    }
}

proof fn lemma_scope(names: Seq<Seq<char>>, types: Seq<Type>, n: nat)
    requires
        n <= names.len(),
    ensures
        forall|name: Seq<char>| #[trigger]
            scope_of(names, types, n).contains_key(name) <==> exists|k: int|
                0 <= k < n && names[k] == name,
    decreases n,
{
    if n > 0 {
        lemma_scope(names, types, (n - 1) as nat);
        assert forall|name: Seq<char>| #[trigger]
            scope_of(names, types, n).contains_key(name) <==> exists|k: int|
                0 <= k < n && names[k] == name by {
            let less = scope_of(names, types, (n - 1) as nat);
            if less.contains_key(name) {
                let k = choose|k: int| 0 <= k < n - 1 && names[k] == name;
                assert(0 <= k < n && names[k] == name);
            }
            if exists|k: int| 0 <= k < n && names[k] == name {
                let k = choose|k: int| 0 <= k < n && names[k] == name;
                assert(k == n - 1 || (0 <= k < n - 1 && names[k] == name));
            }
            if name == names[n - 1] {
                assert(0 <= n - 1 < n && names[n - 1] == name);
            }
        }
    }
}

proof fn lemma_arm(
    t: Tables,
    ret: Type,
    env: Env,
    def: EnumV,
    arm: ArmV,
    covered: Seq<bool>,
    wild: bool,
    line: usize,
)
    requires
        covered.len() == def.variants.len(),
    ensures
        ({
            let (arm1, env1, r) = checked_arm(t, ret, env, def, arm, covered, wild, line);
            &&& r is Ok <==> arm_follows(t, ret, env.in_loop, env.scopes, def, arm) && !(wild
                && arm.pattern is Wildcard) && (forall|v: int| #[trigger]
                handles(def, arm, v) ==> !covered[v])
            &&& r is Ok ==> env1 == env
        }),
    decreases arm, 0nat,
{
    match arm.pattern {
        PatternV::Wildcard => {
            lemma_block(t, ret, env, arm.body);
        },
        PatternV::Variant { name, bindings, types } => {
            lemma_variant(def, name, 0);
            if let Some(v) = def.variant_of(name) {
                assert(is_variant(def, name, v));
                assert(handles(def, arm, v));
                let fields = def.variants[v].fields;
                assert(bindings.take(0) =~= Seq::empty());
                lemma_bind_all(env.scopes, bindings, fields, 0);
                assert(env.scopes.push(scope_of(bindings, fields, 0)) == pushed(env.scopes));
                let sc = env.scopes.push(scope_of(bindings, fields, bindings.len()));
                lemma_block(t, ret, Env { scopes: sc, ..env }, arm.body);
                assert(sc.drop_last() =~= env.scopes);
            }
        },
    }
}

proof fn lemma_arms(
    t: Tables,
    ret: Type,
    env: Env,
    def: EnumV,
    arms: Seq<ArmV>,
    i: int,
    covered: Seq<bool>,
    wild: bool,
    line: usize,
)
    requires
        0 <= i <= arms.len(),
        covered.len() == def.variants.len(),
        forall|v: int| 0 <= v < covered.len()
            ==> (#[trigger] covered[v] <==> handled(def, arms, i, v)),
        wild <==> exists|k: int| 0 <= k < i && (#[trigger] arms[k]).pattern is Wildcard,
        forall|a: int, b: int|
            0 <= a < b < i ==> apart(def, #[trigger] arms[a], #[trigger] arms[b]),
        forall|a: int|
            0 <= a < i ==> arm_follows(t, ret, env.in_loop, env.scopes, def, #[trigger] arms[a]),
    ensures
        checked_arms(t, ret, env, def, arms, i, covered, wild, line).2 is Ok <==> arms_follow(
            t,
            ret,
            env.in_loop,
            env.scopes,
            def,
            arms,
        ),
        checked_arms(t, ret, env, def, arms, i, covered, wild, line).2 is Ok ==> checked_arms(
            t,
            ret,
            env,
            def,
            arms,
            i,
            covered,
            wild,
            line,
        ).1 == env,
    decreases arms, arms.len() - i,
{
    if i == arms.len() {
        if all_covered(covered) {
            assert forall|v: int| 0 <= v < def.variants.len() implies handled(
                def,
                arms,
                arms.len() as int,
                #[trigger] any_variant(v),
            ) by {
                assert(covered[v]);
            }
        }
        if !wild && exhaust(def, arms) {
            assert forall|v: int| 0 <= v < covered.len() implies #[trigger] covered[v] by {
                assert(handled(def, arms, arms.len() as int, any_variant(v)));
            }
        }
    } else {
        let arm = arms[i];
        lemma_arm(t, ret, env, def, arm, covered, wild, line);
        let good = checked_arm(t, ret, env, def, arm, covered, wild, line).2 is Ok;
        lemma_one_arm(def, arms, i, covered, wild);
        if good {
            lemma_arms(
                t,
                ret,
                env,
                def,
                arms,
                i + 1,
                covering(def, covered, arm),
                wild || arm.pattern is Wildcard,
                line,
            );
        }
    }
}

/// What an arm adds to what the arms before it are for.
proof fn lemma_one_arm(def: EnumV, arms: Seq<ArmV>, i: int, covered: Seq<bool>, wild: bool)
    requires
        0 <= i < arms.len(),
        covered.len() == def.variants.len(),
        forall|v: int| 0 <= v < covered.len()
            ==> (#[trigger] covered[v] <==> handled(def, arms, i, v)),
        wild <==> exists|k: int| 0 <= k < i && (#[trigger] arms[k]).pattern is Wildcard,
    ensures
        covering(def, covered, arms[i]).len() == covered.len(),
        forall|v: int|
            0 <= v < covered.len() ==> (#[trigger] covering(def, covered, arms[i])[v] <==> handled(
                def,
                arms,
                i + 1,
                v,
            )),
        (!(wild && arms[i].pattern is Wildcard) && (forall|v: int| #[trigger]
            handles(def, arms[i], v) ==> !covered[v])) <==> forall|a: int|
            0 <= a < i ==> apart(def, #[trigger] arms[a], arms[i]),
{
    let arm = arms[i];
    if let PatternV::Variant { name, .. } = arm.pattern {
        lemma_variant(def, name, 0);
        if let Some(v) = def.variant_of(name) {
            assert(is_variant(def, name, v));
        }
    }
    let more = covering(def, covered, arm);
    assert forall|v: int| 0 <= v < covered.len() implies (#[trigger] more[v] <==> handled(
        def,
        arms,
        i + 1,
        v,
    )) by {
        assert(covered[v] <==> handled(def, arms, i, v));
        assert(more[v] <==> covered[v] || handles(def, arm, v)) by {
            if let PatternV::Variant { name, .. } = arm.pattern {
                assert(is_variant(def, name, v) <==> def.variant_of(name) == Some(v));
            }
        }
        if handled(def, arms, i + 1, v) && !covered[v] {
            let k = choose|k: int| 0 <= k < i + 1 && handles(def, #[trigger] arms[k], v);
            assert(k == i);
        }
        if covered[v] {
            let k = choose|k: int| 0 <= k < i && handles(def, #[trigger] arms[k], v);
            assert(handles(def, arms[k], v));
        }
        if handles(def, arm, v) {
            assert(handled(def, arms, i + 1, v));
        }
    }
    let fresh = !(wild && arm.pattern is Wildcard) && (forall|v: int| #[trigger]
        handles(def, arm, v) ==> !covered[v]);
    if fresh {
        assert forall|a: int| 0 <= a < i implies apart(def, #[trigger] arms[a], arm) by {
            assert forall|v: int| #[trigger] handles(def, arms[a], v) implies !handles(
                def,
                arm,
                v,
            ) by {
                assert(handled(def, arms, i, v));
                assert(covered[v]);
            }
        }
    } else if wild && arm.pattern is Wildcard {
        let k = choose|k: int| 0 <= k < i && (#[trigger] arms[k]).pattern is Wildcard;
        assert(!apart(def, arms[k], arm));
    } else {
        let v = choose|v: int| #[trigger] handles(def, arm, v) && covered[v];
        let k = choose|k: int| 0 <= k < i && handles(def, #[trigger] arms[k], v);
        assert(handles(def, arms[k], v));
        assert(!apart(def, arms[k], arm));
    }
}

proof fn lemma_match(t: Tables, ret: Type, env: Env, def: EnumV, arms: Seq<ArmV>, line: usize)
    ensures
        ({
            let none = Seq::new(def.variants.len(), |i: int| false);
            let (arms1, env1, r) = checked_arms(t, ret, env, def, arms, 0, none, false, line);
            &&& r is Ok <==> arms_follow(t, ret, env.in_loop, env.scopes, def, arms)
            &&& r is Ok ==> env1 == env
        }),
    decreases arms, arms.len() + 1,
{
    let none = Seq::new(def.variants.len(), |i: int| false);
    lemma_arms(t, ret, env, def, arms, 0, none, false, line);
}

/// The analysis accepts a statement just where it follows the rules, and goes on
/// with what is declared behind it.
pub proof fn law_statements_follow_the_rules(t: Tables, ret: Type, env: Env, s: StmtV)
    ensures
        checked(t, ret, env, s).2 is Ok <==> follows(t, ret, env.in_loop, env.scopes, s),
        checked(t, ret, env, s).2 is Ok ==> checked(t, ret, env, s).1 == (Env {
            scopes: after(t, env.scopes, s),
            ..env
        }),
{
    lemma_statement(t, ret, env, s);
}

/// What a function's parameters are declared as: the receiver first.
pub open spec fn all_params(f: FunctionV) -> Seq<ParamV> {
    match f.recv {
        Some(recv) => seq![recv] + f.params,
        None => f.params,
    }
}

/// The analysis accepts a function just where no two of its parameters have one
/// name and its body follows the rules.
pub proof fn law_functions_follow_the_rules(st: State, f: FunctionV)
    ensures
        ({
            let names = all_params(f).map_values(|p: ParamV| p.name);
            let types = all_params(f).map_values(|p: ParamV| p.ty);
            checked_function(st, f).2 is Ok <==> names.no_duplicates() && block_follows(
                st.tables,
                f.ret,
                st.env.in_loop,
                seq![scope_of(names, types, names.len())],
                f.body,
            )
        }),
{
    let all = all_params(f);
    let names = all.map_values(|p: ParamV| p.name);
    let types = all.map_values(|p: ParamV| p.ty);
    let none = Seq::<Map<Seq<char>, Type>>::empty();
    let k = (all.len() - f.params.len()) as int;
    reveal_with_fuel(scope_of, 2);
    assert(names.take(k).no_duplicates());
    assert(receiver_scope(f) =~= none.push(scope_of(names, types, k as nat)));
    lemma_params(f.params, names, types, 0, k);
    lemma_bind_all(none, names, types, k);
    let sc = seq![scope_of(names, types, names.len())];
    assert(none.push(scope_of(names, types, names.len())) =~= sc);
    lemma_block(st.tables, f.ret, Env { scopes: sc, in_loop: st.env.in_loop }, f.body);
}

/// Parameters are declared as names with types are.
proof fn lemma_params(
    params: Seq<ParamV>,
    names: Seq<Seq<char>>,
    types: Seq<Type>,
    i: int,
    k: int,
)
    requires
        0 <= i <= params.len(),
        0 <= k,
        names.len() == params.len() + k,
        types.len() == names.len(),
        forall|j: int|
            0 <= j < params.len() ==> (#[trigger] params[j]).name == names[k + j] && params[j].ty
                == types[k + j],
    ensures
        forall|sc: Scopes| #[trigger]
            bind_params(sc, params, i) == bind_all(sc, names, types, k + i),
    decreases params.len() - i,
{
    if i < params.len() {
        lemma_params(params, names, types, i + 1, k);
        assert forall|sc: Scopes| #[trigger]
            bind_params(sc, params, i) == bind_all(sc, names, types, k + i) by {
            let next = declare(sc, params[i].name, params[i].ty);
            assert(bind_params(next, params, i + 1) == bind_all(next, names, types, k + i + 1));
        }
    }
}

} // verus!
