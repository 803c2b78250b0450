//! Analysis settles a program: what it accepted it accepts again, and leaves
//! as it is.
use vstd::prelude::*;
use crate::acceptance::lemma_skip;
use crate::ast::{ArmV, EnumV, ExprV, FunctionV, KindV, PatternV, ProgramV, StmtV, Type};
use crate::diag::Span;
use crate::soundness::lemma_block_scopes;
use crate::typing::{
    analyzed, bind_all, bind_params, builtin, checked, checked_arm, checked_arms, checked_assign,
    checked_block, checked_each, checked_field_assign, checked_for, checked_function,
    checked_functions, checked_if, checked_index_assign, checked_let, checked_loop, checked_match,
    checked_range, checked_return, checked_stmts, checked_while, constructs, covering, declare,
    enter_all, enter_all_variants, enter_enums, enter_externs, enter_function, enter_functions,
    enter_structs, fresh_state, is_empty_array, padded, pushed, receiver_scope, typed, typed_array,
    typed_call, typed_kind, typed_list, Env, Scopes, State, Tables, Want,
};

verus! {

// ----- expressions --------------------------------------------------------------------------
/// An accepted expression is accepted again, with the same type, and left as it
/// is.
proof fn lemma_typed_again(t: Tables, sc: Scopes, e: ExprV)
    requires
        typed(t, sc, e).1 is Ok,
    ensures
        typed(t, sc, typed(t, sc, e).0) == typed(t, sc, e),
    decreases e, 0nat,
{
    let e1 = typed(t, sc, e).0;
    match constructs(t, sc, e) {
        Some((eid, vid)) => {
            assert(e1.kind is EnumInit);
            assert(constructs(t, sc, e1) is None);
        },
        None => {
            assert(e1.kind == typed_kind(t, sc, e.kind, e.span).0);
            lemma_kind_again(t, sc, e.kind, e.span);
            assert(constructs(t, sc, e1) is None);
        },
    }
}

proof fn lemma_kind_again(t: Tables, sc: Scopes, k: KindV, span: Span)
    requires
        typed_kind(t, sc, k, span).1 is Ok,
    ensures
        typed_kind(t, sc, typed_kind(t, sc, k, span).0, span) == typed_kind(t, sc, k, span),
        k is Call <==> typed_kind(t, sc, k, span).0 is Call,
        k is Var <==> typed_kind(t, sc, k, span).0 is Var,
        k is Var ==> typed_kind(t, sc, k, span).0 == k,
        k matches KindV::Call(name, args) ==> (typed_kind(t, sc, k, span).0 matches KindV::Call(
            name1,
            args1,
        ) && name1 == name),
    decreases k, 3nat,
{
    match k {
        KindV::Unary(op, a) => {
            lemma_typed_again(t, sc, *a);
        },
        KindV::Binary(a, op, b) => {
            lemma_typed_again(t, sc, *a);
            lemma_typed_again(t, sc, *b);
        },
        KindV::Call(name, args) => {
            lemma_call_again(t, sc, name, args, span);
        },
        KindV::MethodCall(recv, name, args) => {
            lemma_typed_again(t, sc, *recv);
            let (recv1, r) = typed(t, sc, *recv);
            if let Type::Struct(id) = r->Ok_0 {
                let sig = t.methods[id as int][name];
                lemma_whole_again(t, sc, args, Want::Method { name, sig });
            }
        },
        KindV::ArrayLit(es) => {
            lemma_array_again(t, sc, es, span);
        },
        KindV::Index(a, b) => {
            lemma_typed_again(t, sc, *a);
            lemma_typed_again(t, sc, *b);
        },
        KindV::Field(a, name) => {
            lemma_typed_again(t, sc, *a);
        },
        _ => {},
    }
}

proof fn lemma_call_again(t: Tables, sc: Scopes, name: Seq<char>, args: Seq<ExprV>, span: Span)
    requires
        typed_call(t, sc, name, args, span).1 is Ok,
    ensures
        typed_call(t, sc, name, typed_call(t, sc, name, args, span).0, span) == typed_call(
            t,
            sc,
            name,
            args,
            span,
        ),
    decreases args, args.len() + 2,
{
    let args1 = typed_call(t, sc, name, args, span).0;
    if builtin(name) {
        if name == "find"@ {
            lemma_whole_again(t, sc, args, Want::Find);
        } else {
            lemma_typed_again(t, sc, args[0]);
            let first = typed(t, sc, args[0]).0;
            if name == "push"@ {
                lemma_typed_again(t, sc, args[1]);
                let second = typed(t, sc, args[1]).0;
                assert(args1[0] == first && args1[1] == second);
                assert(args1.update(0, first) =~= args1);
                assert(args1.update(1, second) =~= args1);
            } else {
                assert(args1[0] == first);
                assert(args1.update(0, first) =~= args1);
            }
        }
    } else if t.struct_ids.contains_key(name) {
        let def = t.structs[t.struct_ids[name] as int];
        lemma_whole_again(t, sc, args, Want::Fields { def });
    } else {
        let sig = t.functions[name];
        lemma_whole_again(t, sc, args, Want::Params { name, sig, span });
    }
}

proof fn lemma_array_again(t: Tables, sc: Scopes, es: Seq<ExprV>, span: Span)
    requires
        typed_array(t, sc, es, span).1 is Ok,
    ensures
        typed_array(t, sc, typed_array(t, sc, es, span).0, span) == typed_array(t, sc, es, span),
    decreases es, es.len() + 2,
{
    let es1 = typed_array(t, sc, es, span).0;
    let (first, r) = typed(t, sc, es[0]);
    let w = Want::Elems { first: r->Ok_0 };
    lemma_typed_again(t, sc, es[0]);
    lemma_list_made(t, sc, es, w, 1);
    let rest = typed_list(t, sc, es, w, 1).0;
    assert forall|k: int| 1 <= k < es.len() implies (#[trigger] es1[k]) == typed(
        t,
        sc,
        es[k],
    ).0 by {
        assert(es1[k] == rest[k - 1]);
        assert(1 + (k - 1) == k);
    }
    lemma_list_again(t, sc, es, es1, w, 1);
    assert(es1[0] == first);
}

/// What an accepted list consists of.
proof fn lemma_list_made(t: Tables, sc: Scopes, es: Seq<ExprV>, w: Want, i: int)
    requires
        0 <= i <= es.len(),
        typed_list(t, sc, es, w, i).1 is Ok,
    ensures
        typed_list(t, sc, es, w, i).0.len() == es.len() - i,
        forall|k: int|
            0 <= k < es.len() - i ==> (#[trigger] typed_list(t, sc, es, w, i).0[k]) == typed(
                t,
                sc,
                es[i + k],
            ).0,
    decreases es.len() - i,
{
    if i < es.len() {
        lemma_list_made(t, sc, es, w, i + 1);
        let rest = typed_list(t, sc, es, w, i + 1).0;
        let all = typed_list(t, sc, es, w, i).0;
        assert forall|k: int| 0 <= k < es.len() - i implies (#[trigger] all[k]) == typed(
            t,
            sc,
            es[i + k],
        ).0 by {
            if k > 0 {
                assert(all[k] == rest[k - 1]);
                assert(i + 1 + (k - 1) == i + k);
            }
        }
    }
}

/// A list whose expressions from position `i` on are those of `es`, accepted.
proof fn lemma_list_again(
    t: Tables,
    sc: Scopes,
    es: Seq<ExprV>,
    es1: Seq<ExprV>,
    w: Want,
    i: int,
)
    requires
        0 <= i <= es.len() == es1.len(),
        typed_list(t, sc, es, w, i).1 is Ok,
        forall|k: int| i <= k < es.len() ==> (#[trigger] es1[k]) == typed(t, sc, es[k]).0,
    ensures
        typed_list(t, sc, es1, w, i) == typed_list(t, sc, es, w, i),
    decreases es, es.len() - i,
{
    if i < es.len() {
        assert(es1[i] == typed(t, sc, es[i]).0);
        lemma_typed_again(t, sc, es[i]);
        lemma_list_again(t, sc, es, es1, w, i + 1);
    }
}

proof fn lemma_whole_again(t: Tables, sc: Scopes, es: Seq<ExprV>, w: Want)
    requires
        typed_list(t, sc, es, w, 0).1 is Ok,
    ensures
        typed_list(t, sc, es, w, 0).0.len() == es.len(),
        typed_list(t, sc, typed_list(t, sc, es, w, 0).0, w, 0) == typed_list(t, sc, es, w, 0),
    decreases es, es.len() + 1,
{
    let es1 = typed_list(t, sc, es, w, 0).0;
    lemma_list_made(t, sc, es, w, 0);
    assert forall|k: int| 0 <= k < es.len() implies (#[trigger] es1[k]) == typed(
        t,
        sc,
        es[k],
    ).0 by {
        assert(0 + k == k);
    }
    lemma_list_again(t, sc, es, es1, w, 0);
}

// ----- statements -----------------------------------------------------------------------------
/// Statements without blocks.
proof fn lemma_simple_again(t: Tables, ret: Type, env: Env, s: StmtV)
    requires
        env.scopes.len() > 0,
        checked(t, ret, env, s).2 is Ok,
        !(s is If || s is While || s is For || s is ForEach || s is Match),
    ensures
        checked(t, ret, env, checked(t, ret, env, s).0) == checked(t, ret, env, s),
{
    let sc = env.scopes;
    match s {
        StmtV::Let { name, ty, value, line } => {
            reveal(checked_let);
            if !is_empty_array(value) {
                lemma_typed_again(t, sc, value);
                let value1 = typed(t, sc, value).0;
                assert(!is_empty_array(value1)) by {
                    if is_empty_array(value1) {
                        assert(constructs(t, sc, value1) is None);
                        assert(typed_array(t, sc, value1.kind->ArrayLit_0, value1.span).1 is Err);
                    }
                }
            }
        },
        StmtV::Assign { name, value, line } => {
            reveal(checked_assign);
            lemma_typed_again(t, sc, value);
        },
        StmtV::IndexAssign { target, index, value, line } => {
            reveal(checked_index_assign);
            lemma_typed_again(t, sc, target);
            lemma_typed_again(t, sc, index);
            lemma_typed_again(t, sc, value);
        },
        StmtV::FieldAssign { target, field, value, line } => {
            reveal(checked_field_assign);
            lemma_typed_again(t, sc, target);
            lemma_typed_again(t, sc, value);
        },
        StmtV::Expr(e) => {
            lemma_typed_again(t, sc, e);
        },
        StmtV::Return { value, line } => {
            reveal(checked_return);
            if let Some(e) = value {
                lemma_typed_again(t, sc, e);
            }
        },
        _ => {},
    }
}

proof fn lemma_if_again(t: Tables, ret: Type, env: Env, s: StmtV)
    requires
        s is If,
        checked_if(t, ret, env, s).2 is Ok,
    ensures
        checked_if(t, ret, env, checked_if(t, ret, env, s).0) == checked_if(t, ret, env, s),
        checked_if(t, ret, env, s).0 is If,
    decreases s, 1nat,
{
    let sc = env.scopes;
    if let StmtV::If { cond, then_block, else_block } = s {
        lemma_typed_again(t, sc, cond);
        lemma_block_again(t, ret, env, then_block);
        if let Some(b) = else_block {
            lemma_block_again(t, ret, env, b);
        }
    }
}

proof fn lemma_while_again(t: Tables, ret: Type, env: Env, s: StmtV)
    requires
        s is While,
        checked_while(t, ret, env, s).2 is Ok,
    ensures
        checked_while(t, ret, env, checked_while(t, ret, env, s).0)
            == checked_while(t, ret, env, s),
        checked_while(t, ret, env, s).0 is While,
    decreases s, 1nat,
{
    let sc = env.scopes;
    if let StmtV::While { cond, body } = s {
        lemma_typed_again(t, sc, cond);
        lemma_loop_again(t, ret, env, body);
    }
}

proof fn lemma_range_again(t: Tables, ret: Type, env: Env, s: StmtV)
    requires
        s is For,
        checked_range(t, ret, env, s).2 is Ok,
    ensures
        checked_range(t, ret, env, checked_range(t, ret, env, s).0)
            == checked_range(t, ret, env, s),
        checked_range(t, ret, env, s).0 is For,
    decreases s, 1nat,
{
    let sc = env.scopes;
    if let StmtV::For { var, start, end, body, line } = s {
        lemma_typed_again(t, sc, start);
        lemma_typed_again(t, sc, end);
        lemma_for_again(t, ret, env, var, Type::Int, body);
    }
}

proof fn lemma_each_again(t: Tables, ret: Type, env: Env, s: StmtV)
    requires
        s is ForEach,
        checked_each(t, ret, env, s).2 is Ok,
    ensures
        checked_each(t, ret, env, checked_each(t, ret, env, s).0) == checked_each(t, ret, env, s),
        checked_each(t, ret, env, s).0 is ForEach,
    decreases s, 1nat,
{
    let sc = env.scopes;
    if let StmtV::ForEach { var, iterable, body, line } = s {
        lemma_typed_again(t, sc, iterable);
        let elem = typed(t, sc, iterable).1->Ok_0.elem()->0;
        lemma_for_again(t, ret, env, var, elem, body);
    }
}

proof fn lemma_match_again(t: Tables, ret: Type, env: Env, s: StmtV)
    requires
        s is Match,
        checked_match(t, ret, env, s).2 is Ok,
    ensures
        checked_match(t, ret, env, checked_match(t, ret, env, s).0)
            == checked_match(t, ret, env, s),
        checked_match(t, ret, env, s).0 is Match,
    decreases s, 1nat,
{
    let sc = env.scopes;
    if let StmtV::Match { scrutinee, arms, line } = s {
        lemma_typed_again(t, sc, scrutinee);
        if let Type::Enum(id) = typed(t, sc, scrutinee).1->Ok_0 {
            let def = t.enums[id as int];
            let none = Seq::new(def.variants.len(), |i: int| false);
            let arms1 = checked_arms(t, ret, env, def, arms, 0, none, false, line).0;
            lemma_arms_made(t, ret, env, def, arms, 0, none, false, line);
            assert(arms1.skip(0) =~= arms1);
            lemma_arms_again(t, ret, env, def, arms, arms1, 0, none, false, line);
        }
    }
}

/// An accepted statement is accepted again, with the same declarations, and
/// left as it is.
proof fn lemma_stmt_again(t: Tables, ret: Type, env: Env, s: StmtV)
    requires
        env.scopes.len() > 0,
        checked(t, ret, env, s).2 is Ok,
    ensures
        checked(t, ret, env, checked(t, ret, env, s).0) == checked(t, ret, env, s),
    decreases s, 2nat,
{
    match s {
        StmtV::If { .. } => {
            lemma_if_again(t, ret, env, s);
        },
        StmtV::While { .. } => {
            lemma_while_again(t, ret, env, s);
        },
        StmtV::For { .. } => {
            lemma_range_again(t, ret, env, s);
        },
        StmtV::ForEach { .. } => {
            lemma_each_again(t, ret, env, s);
        },
        StmtV::Match { .. } => {
            lemma_match_again(t, ret, env, s);
        },
        _ => {
            lemma_simple_again(t, ret, env, s);
        },
    }
}

proof fn lemma_block_again(t: Tables, ret: Type, env: Env, b: Seq<StmtV>)
    requires
        checked_block(t, ret, env, b).2 is Ok,
    ensures
        checked_block(t, ret, env, checked_block(t, ret, env, b).0) == checked_block(
            t,
            ret,
            env,
            b,
        ),
        checked_block(t, ret, env, b).1 == env,
    decreases b, b.len() + 1,
{
    let inner = Env { scopes: pushed(env.scopes), ..env };
    let b1 = checked_stmts(t, ret, inner, b, 0).0;
    lemma_stmts_made(t, ret, inner, b, 0);
    assert(b1.skip(0) =~= b1);
    lemma_stmts_again(t, ret, inner, b, b1, 0);
    lemma_block_scopes(t, ret, env, b);
}

proof fn lemma_stmts_made(t: Tables, ret: Type, env: Env, b: Seq<StmtV>, i: int)
    requires
        0 <= i <= b.len(),
        checked_stmts(t, ret, env, b, i).2 is Ok,
    ensures
        checked_stmts(t, ret, env, b, i).0.len() == b.len() - i,
    decreases b.len() - i,
{
    if i < b.len() {
        lemma_stmts_made(t, ret, checked(t, ret, env, b[i]).1, b, i + 1);
    }
}

/// A block whose statements from position `i` on are those of `b`, accepted.
proof fn lemma_stmts_again(
    t: Tables,
    ret: Type,
    env: Env,
    b: Seq<StmtV>,
    b1: Seq<StmtV>,
    i: int,
)
    requires
        env.scopes.len() > 0,
        0 <= i <= b.len() == b1.len(),
        checked_stmts(t, ret, env, b, i).2 is Ok,
        b1.skip(i) == checked_stmts(t, ret, env, b, i).0,
    ensures
        checked_stmts(t, ret, env, b1, i) == checked_stmts(t, ret, env, b, i),
    decreases b, b.len() - i,
{
    if i < b.len() {
        let (s1, env1, r) = checked(t, ret, env, b[i]);
        let rest = checked_stmts(t, ret, env1, b, i + 1).0;
        lemma_skip(b1, i, s1, rest);
        lemma_stmt_again(t, ret, env, b[i]);
        crate::soundness::lemma_stmt_scopes(t, ret, env, b[i]);
        lemma_stmts_again(t, ret, env1, b, b1, i + 1);
    }
}

proof fn lemma_loop_again(t: Tables, ret: Type, env: Env, b: Seq<StmtV>)
    requires
        checked_loop(t, ret, env, b).2 is Ok,
    ensures
        checked_loop(t, ret, env, checked_loop(t, ret, env, b).0) == checked_loop(t, ret, env, b),
    decreases b, b.len() + 2,
{
    lemma_block_again(t, ret, Env { in_loop: true, ..env }, b);
}

proof fn lemma_for_again(
    t: Tables,
    ret: Type,
    env: Env,
    var: Seq<char>,
    ty: Type,
    b: Seq<StmtV>,
)
    requires
        checked_for(t, ret, env, var, ty, b).2 is Ok,
    ensures
        checked_for(t, ret, env, var, ty, checked_for(t, ret, env, var, ty, b).0) == checked_for(
            t,
            ret,
            env,
            var,
            ty,
            b,
        ),
    decreases b, b.len() + 3,
{
    lemma_loop_again(t, ret, Env { scopes: declare(pushed(env.scopes), var, ty), ..env }, b);
}

proof fn lemma_arm_again(
    t: Tables,
    ret: Type,
    env: Env,
    def: EnumV,
    arm: ArmV,
    covered: Seq<bool>,
    wild: bool,
    line: usize,
)
    requires
        checked_arm(t, ret, env, def, arm, covered, wild, line).2 is Ok,
    ensures
        ({
            let made = checked_arm(t, ret, env, def, arm, covered, wild, line);
            &&& checked_arm(t, ret, env, def, made.0, covered, wild, line) == made
            &&& covering(def, covered, made.0) == covering(def, covered, arm)
            &&& made.0.pattern is Wildcard == arm.pattern is Wildcard
        }),
    decreases arm, 0nat,
{
    match arm.pattern {
        PatternV::Wildcard => {
            lemma_block_again(t, ret, env, arm.body);
        },
        PatternV::Variant { name, bindings, types } => {
            let v = def.variant_of(name)->0;
            let fields = def.variants[v].fields;
            let scopes1 = bind_all(pushed(env.scopes), bindings, fields, 0).0;
            lemma_block_again(t, ret, Env { scopes: scopes1, ..env }, arm.body);
        },
    }
}

proof fn lemma_arms_made(
    t: Tables,
    ret: Type,
    env: Env,
    def: EnumV,
    arms: Seq<ArmV>,
    i: int,
    covered: Seq<bool>,
    wild: bool,
    line: usize,
)
    requires
        0 <= i <= arms.len(),
        checked_arms(t, ret, env, def, arms, i, covered, wild, line).2 is Ok,
    ensures
        checked_arms(t, ret, env, def, arms, i, covered, wild, line).0.len() == arms.len() - i,
    decreases arms.len() - i,
{
    if i < arms.len() {
        let env1 = checked_arm(t, ret, env, def, arms[i], covered, wild, line).1;
        let covered1 = covering(def, covered, arms[i]);
        let wild1 = wild || arms[i].pattern is Wildcard;
        lemma_arms_made(t, ret, env1, def, arms, i + 1, covered1, wild1, line);
    }
}

/// Arms of which those from position `i` on are those of `arms`, accepted.
proof fn lemma_arms_again(
    t: Tables,
    ret: Type,
    env: Env,
    def: EnumV,
    arms: Seq<ArmV>,
    arms1: Seq<ArmV>,
    i: int,
    covered: Seq<bool>,
    wild: bool,
    line: usize,
)
    requires
        0 <= i <= arms.len() == arms1.len(),
        checked_arms(t, ret, env, def, arms, i, covered, wild, line).2 is Ok,
        arms1.skip(i) == checked_arms(t, ret, env, def, arms, i, covered, wild, line).0,
    ensures
        checked_arms(t, ret, env, def, arms1, i, covered, wild, line) == checked_arms(
            t,
            ret,
            env,
            def,
            arms,
            i,
            covered,
            wild,
            line,
        ),
    decreases arms, arms.len() - i,
{
    if i < arms.len() {
        let (arm1, env1, r) = checked_arm(t, ret, env, def, arms[i], covered, wild, line);
        let covered1 = covering(def, covered, arms[i]);
        let wild1 = wild || arms[i].pattern is Wildcard;
        let rest = checked_arms(t, ret, env1, def, arms, i + 1, covered1, wild1, line).0;
        lemma_skip(arms1, i, arm1, rest);
        lemma_arm_again(t, ret, env, def, arms[i], covered, wild, line);
        lemma_arms_again(t, ret, env1, def, arms, arms1, i + 1, covered1, wild1, line);
    }
}

// ----- programs ---------------------------------------------------------------------------------
/// Whether two functions differ in nothing but their bodies.
spec fn same_but_body(f: FunctionV, g: FunctionV) -> bool {
    g == (FunctionV { body: g.body, ..f })
}

/// Accepted functions are accepted again, and left as they are.
proof fn lemma_functions_again(st: State, fs: Seq<FunctionV>, fs1: Seq<FunctionV>, i: int)
    requires
        0 <= i <= fs.len() == fs1.len(),
        checked_functions(st, fs, i).2 is Ok,
        fs1.skip(i) == checked_functions(st, fs, i).0,
    ensures
        checked_functions(st, fs1, i) == checked_functions(st, fs, i),
        forall|k: int| i <= k < fs.len() ==> same_but_body(fs[k], #[trigger] fs1[k]),
    decreases fs.len() - i,
{
    if i < fs.len() {
        let (f1, st1, r) = checked_function(st, fs[i]);
        let rest = checked_functions(st1, fs, i + 1).0;
        lemma_skip(fs1, i, f1, rest);
        let f = fs[i];
        let scopes = bind_params(receiver_scope(f), f.params, 0).0;
        lemma_block_again(
            st.tables,
            f.ret,
            Env { scopes, in_loop: st.env.in_loop },
            f.body,
        );
        assert(receiver_scope(f1) == receiver_scope(f));
        lemma_functions_again(st1, fs, fs1, i + 1);
    }
}

proof fn lemma_functions_made(st: State, fs: Seq<FunctionV>, i: int)
    requires
        0 <= i <= fs.len(),
        checked_functions(st, fs, i).2 is Ok,
    ensures
        checked_functions(st, fs, i).0.len() == fs.len() - i,
    decreases fs.len() - i,
{
    if i < fs.len() {
        lemma_functions_made(checked_function(st, fs[i]).1, fs, i + 1);
    }
}

/// Bodies are no matter of what is declared.
proof fn lemma_same_entries(
    t: Tables,
    fs: Seq<FunctionV>,
    gs: Seq<FunctionV>,
    i: int,
)
    requires
        0 <= i <= fs.len() == gs.len(),
        forall|k: int| 0 <= k < fs.len() ==> same_but_body(fs[k], #[trigger] gs[k]),
    ensures
        enter_functions(t, gs, i) == enter_functions(t, fs, i),
    decreases fs.len() - i,
{
    if i < fs.len() {
        assert(same_but_body(fs[i], gs[i]));
        lemma_same_entries(enter_function(t, fs[i]).0, fs, gs, i + 1);
    }
}

/// Analyzing what was accepted changes nothing: it is accepted again, and left
/// as it is.
pub proof fn law_analysis_settles(p: ProgramV)
    requires
        analyzed(fresh_state(), p).2 is Ok,
    ensures
        analyzed(fresh_state(), analyzed(fresh_state(), p).0) == analyzed(fresh_state(), p),
{
    let t = enter_all(fresh_state().tables, p).0;
    let st = State { tables: t, ..fresh_state() };
    let fs1 = checked_functions(st, p.functions, 0).0;
    let p1 = analyzed(fresh_state(), p).0;
    lemma_functions_made(st, p.functions, 0);
    assert(fs1.skip(0) =~= fs1);
    lemma_functions_again(st, p.functions, fs1, 0);
    let t0 = Tables {
        structs: p.structs,
        methods: padded(fresh_state().tables.methods, p.structs.len()),
        ..fresh_state().tables
    };
    let t1 = enter_structs(t0, p.structs, 0).0;
    let t2 = enter_enums(Tables { enums: p.enums, ..t1 }, p.enums, 0).0;
    let t3 = enter_all_variants(t2, p.enums, 0).0;
    lemma_same_entries(enter_externs(t3, p.externs, 0).0, p.functions, fs1, 0);
    assert(enter_all(fresh_state().tables, p1) == enter_all(fresh_state().tables, p));
    assert(p1.functions == fs1);
}

} // verus!
