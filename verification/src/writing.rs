//! Parsed programs are written with names of their own; what was accepted of
//! them is lowered, and its references balance.
use vstd::prelude::*;
use crate::acceptance::{
    distinct_symbols, law_accepted_programs_lower, refusable, symbol_count, symbol_key, written,
    written_arm, written_arms, written_block, written_function,
};
use crate::agreement::{written_expr, written_exprs, written_kind};
use crate::ast::{
    ArmV, ExprV, ExternV, Function, FunctionV, KindV, ParamV, ProgramV, StmtV, StructV, Type,
};
use crate::balance::{function_balanced, law_program_balances};
use crate::counting::arc_program;
use crate::grammar::{
    arm_body_at, arms_at, block_at, decls_at, enum_at, expr_at, expr_then, extern_at, for_at,
    function_at, has_struct, if_at, input_of, let_at, match_at, names_at, param_at, params_at,
    pattern_at, program_of, return_type_at, simple_at, stmt_at, stmts_at, struct_at, type_at, Input,
};
use crate::lexer::{
    is_name, law_identifiers_are_names, law_stream_ends_once, lexed, well_named, TokV,
};
use crate::lowering::{all_params, function_key, lowered};
use crate::naming::{own_name, own_names, param_names};
use crate::resolution::{
    law_types_resolve, lemma_arm_body, lemma_block, lemma_enum, lemma_expr, lemma_expr_then,
    lemma_extern, lemma_function, lemma_param, lemma_params, lemma_pattern, lemma_return_type,
    lemma_stmt, lemma_struct, lemma_type, placed,
};
use crate::typing::{
    analyzed, enter_all_variants, enter_enums, enter_externs, enter_function, enter_functions,
    enter_structs, expr_known, exprs_known, fresh_state, function_known, kind_known, padded,
    program_known, SigV, Tables,
};

verus! {

// ----- expressions --------------------------------------------------------------------------
/// A tree without enums to name holds no constructor.
proof fn lemma_written(e: ExprV)
    requires
        expr_known(0, e),
    ensures
        written_expr(e),
    decreases e,
{
    assert(kind_known(0, e.kind));
    match e.kind {
        KindV::Unary(op, a) => {
            lemma_written(*a);
        },
        KindV::Binary(a, op, b) => {
            lemma_written(*a);
            lemma_written(*b);
        },
        KindV::Call(name, args) => {
            lemma_all_written(args);
        },
        KindV::MethodCall(r, name, args) => {
            lemma_written(*r);
            lemma_all_written(args);
        },
        KindV::ArrayLit(es) => {
            lemma_all_written(es);
        },
        KindV::Index(a, b) => {
            lemma_written(*a);
            lemma_written(*b);
        },
        KindV::Field(a, name) => {
            lemma_written(*a);
        },
        _ => {},
    }
    assert(written_kind(e.kind));
}

proof fn lemma_all_written(es: Seq<ExprV>)
    requires
        exprs_known(0, es),
    ensures
        written_exprs(es),
    decreases es,
{
    assert forall|i: int| 0 <= i < es.len() implies written_expr(#[trigger] es[i]) by {
        assert(expr_known(0, es[i]));
        lemma_written(es[i]);
    }
}

/// Whether the identifiers of an input are names.
pub open spec fn named_well(c: Input) -> bool {
    forall|k: int| 0 <= k < c.toks.len() ==> well_named(#[trigger] c.toks[k])
}

proof fn lemma_ident(c: Input, p: int)
    requires
        named_well(c),
    ensures
        c.ident(p) matches Ok((name, p1)) ==> is_name(name) && own_name(name),
{
    if 0 <= p < c.toks.len() {
        assert(well_named(c.toks[p]));
    }
}

proof fn lemma_expr_written(c: Input, p: int)
    requires
        placed(c, p),
    ensures
        expr_at(c, p, 7) matches Ok((e, p1)) ==> written_expr(e),
{
    lemma_expr(c, 0, p, 7);
    if let Ok((e, p1)) = expr_at(c, p, 7) {
        lemma_written(e);
    }
}

proof fn lemma_then_written(c: Input, p: int, k: TokV)
    requires
        placed(c, p),
        k == TokV::Newline || k == TokV::Colon,
    ensures
        expr_then(c, p, k) matches Ok((e, p1)) ==> p < p1 < c.toks.len() && written_expr(e),
{
    lemma_expr_then(c, p, k);
    lemma_expr_written(c, p);
}

// ----- statements -----------------------------------------------------------------------------
proof fn lemma_simple_written(c: Input, p: int)
    requires
        placed(c, p),
    ensures
        simple_at(c, p) matches Ok((s, p1)) ==> written(s),
{
    lemma_expr(c, 0, p, 7);
    lemma_expr_written(c, p);
    if let Ok((e, p1)) = expr_at(c, p, 7) {
        assert(written_kind(e.kind));
        if c.at(p1) == TokV::Assign {
            lemma_then_written(c, p1 + 1, TokV::Newline);
        }
    }
}

proof fn lemma_let_written(c: Input, p: int)
    requires
        placed(c, p),
        named_well(c),
        c.at(p) == TokV::Let,
    ensures
        let_at(c, p) matches Ok((s, p1)) ==> written(s),
{
    lemma_ident(c, p + 1);
    if let Ok((name, p1)) = c.ident(p + 1) {
        if c.at(p1) == TokV::Colon {
            lemma_type(c, p1 + 1);
            if let Ok((t, p2)) = type_at(c, p1 + 1) {
                if let Ok(p3) = c.expect(p2, TokV::Assign) {
                    lemma_then_written(c, p3, TokV::Newline);
                }
            }
        } else if let Ok(p3) = c.expect(p1, TokV::Assign) {
            lemma_then_written(c, p3, TokV::Newline);
        }
    }
}

proof fn lemma_stmt_written(c: Input, p: int)
    requires
        placed(c, p),
        named_well(c),
    ensures
        stmt_at(c, p) matches Ok((s, p1)) ==> written(s),
    decreases c.toks.len() - p, 3nat,
{
    match c.at(p) {
        TokV::Let => {
            lemma_let_written(c, p);
        },
        TokV::Return => {
            if c.at(p + 1) != TokV::Newline {
                lemma_then_written(c, p + 1, TokV::Newline);
            }
        },
        TokV::If => {
            lemma_if_written(c, p);
        },
        TokV::For => {
            lemma_for_written(c, p);
        },
        TokV::Match => {
            lemma_match_written(c, p);
        },
        TokV::While => {
            lemma_then_written(c, p + 1, TokV::Colon);
            if let Ok((cond, p1)) = expr_then(c, p + 1, TokV::Colon) {
                lemma_block_written(c, p1);
            }
        },
        TokV::Ident(_) => {
            lemma_simple_written(c, p);
        },
        _ => {},
    }
}

proof fn lemma_block_written(c: Input, p: int)
    requires
        placed(c, p),
        named_well(c),
    ensures
        block_at(c, p) matches Ok((b, p1)) ==> written_block(b),
    decreases c.toks.len() - p, 1nat,
{
    if let Ok(p1) = c.expect2(p, TokV::Newline, TokV::Indent) {
        lemma_stmts_written(c, p1, Seq::empty());
    }
}

proof fn lemma_stmts_written(c: Input, p: int, done: Seq<StmtV>)
    requires
        placed(c, p),
        named_well(c),
        written_block(done),
    ensures
        stmts_at(c, p, done) matches Ok((b, p1)) ==> written_block(b),
    decreases c.toks.len() - p, 4nat,
{
    if c.at(p) != TokV::Dedent && c.at(p) != TokV::Eof {
        lemma_stmt(c, p);
        lemma_stmt_written(c, p);
        if let Ok((s, p1)) = stmt_at(c, p) {
            let more = done.push(s);
            assert forall|i: int| 0 <= i < more.len() implies written(#[trigger] more[i]) by {
                if i < done.len() {
                    assert(more[i] == done[i]);
                }
            }
            lemma_stmts_written(c, p1, more);
        }
    }
}

proof fn lemma_if_written(c: Input, p: int)
    requires
        placed(c, p),
        named_well(c),
        c.at(p) == TokV::If || c.at(p) == TokV::Elif,
    ensures
        if_at(c, p) matches Ok((s, p1)) ==> written(s),
    decreases c.toks.len() - p, 2nat,
{
    lemma_then_written(c, p + 1, TokV::Colon);
    if let Ok((cond, p1)) = expr_then(c, p + 1, TokV::Colon) {
        lemma_block(c, p1);
        lemma_block_written(c, p1);
        if let Ok((b, p2)) = block_at(c, p1) {
            if c.at(p2) == TokV::Elif {
                lemma_if_written(c, p2);
                if let Ok((s, p3)) = if_at(c, p2) {
                    assert(written_block(seq![s]));
                }
            } else if c.at(p2) == TokV::Else {
                if let Ok(p3) = c.expect(p2 + 1, TokV::Colon) {
                    lemma_block_written(c, p3);
                }
            }
        }
    }
}

proof fn lemma_for_written(c: Input, p: int)
    requires
        placed(c, p),
        named_well(c),
        c.at(p) == TokV::For,
    ensures
        for_at(c, p) matches Ok((s, p1)) ==> written(s),
    decreases c.toks.len() - p, 2nat,
{
    lemma_ident(c, p + 1);
    if let Ok((var, p1)) = c.ident_then(p + 1, TokV::In) {
        lemma_then_written(c, p1, TokV::Colon);
        if let Ok((iterable, p2)) = expr_then(c, p1, TokV::Colon) {
            lemma_block_written(c, p2);
            assert(written_kind(iterable.kind));
            assert(written_kind(KindV::Int(0)));
        }
    }
}

proof fn lemma_names_own(c: Input, p: int, done: Seq<Seq<char>>)
    requires
        placed(c, p),
        named_well(c),
        own_names(done),
    ensures
        names_at(c, p, done) matches Ok((names, p1)) ==> own_names(names),
    decreases c.toks.len() - p,
{
    if c.at(p) != TokV::RParen {
        lemma_ident(c, p);
        if let Ok((name, p1)) = c.ident(p) {
            let more = done.push(name);
            assert forall|i: int| 0 <= i < more.len() implies own_name(#[trigger] more[i]) by {
                if i < done.len() {
                    assert(more[i] == done[i]);
                }
            }
            if c.at(p1) == TokV::Comma {
                lemma_names_own(c, p1 + 1, more);
            }
        }
    }
}

proof fn lemma_arms_written(c: Input, p: int, done: Seq<ArmV>)
    requires
        placed(c, p),
        named_well(c),
        written_arms(done),
    ensures
        arms_at(c, p, done) matches Ok((arms, p1)) ==> written_arms(arms),
    decreases c.toks.len() - p, 4nat,
{
    if c.at(p) != TokV::Dedent {
        lemma_pattern(c, p);
        if let Ok((pattern, p1)) = pattern_at(c, p) {
            if let Ok((name, q)) = c.ident(p) {
                if c.at(q) == TokV::LParen {
                    lemma_names_own(c, q + 1, Seq::empty());
                }
            }
            if let Ok(p2) = c.expect(p1, TokV::Colon) {
                lemma_arm_body(c, p2);
                lemma_arm_body_written(c, p2);
                if let Ok((body, p3)) = arm_body_at(c, p2) {
                    let more = done.push(ArmV { pattern, body });
                    assert forall|i: int| 0 <= i < more.len() implies written_arm(
                        #[trigger] more[i],
                    ) by {
                        if i < done.len() {
                            assert(more[i] == done[i]);
                        }
                    }
                    lemma_arms_written(c, p3, more);
                }
            }
        }
    }
}

proof fn lemma_arm_body_written(c: Input, p: int)
    requires
        placed(c, p),
        named_well(c),
    ensures
        arm_body_at(c, p) matches Ok((b, p1)) ==> written_block(b),
    decreases c.toks.len() - p, 5nat,
{
    if c.at(p) == TokV::Newline {
        lemma_block_written(c, p);
    } else {
        lemma_stmt_written(c, p);
        if let Ok((s, p1)) = stmt_at(c, p) {
            assert(written_block(seq![s]));
        }
    }
}

proof fn lemma_match_written(c: Input, p: int)
    requires
        placed(c, p),
        named_well(c),
        c.at(p) == TokV::Match,
    ensures
        match_at(c, p) matches Ok((s, p1)) ==> written(s),
    decreases c.toks.len() - p, 2nat,
{
    lemma_then_written(c, p + 1, TokV::Colon);
    if let Ok((scrutinee, p1)) = expr_then(c, p + 1, TokV::Colon) {
        if let Ok(p2) = c.expect2(p1, TokV::Newline, TokV::Indent) {
            lemma_arms_written(c, p2, Seq::empty());
        }
    }
}

// ----- declarations ---------------------------------------------------------------------------
/// Whether parameters have names of the program's own.
spec fn named_params(params: Seq<ParamV>) -> bool {
    forall|i: int| 0 <= i < params.len() ==> own_name((#[trigger] params[i]).name)
}

proof fn lemma_params_named(c: Input, p: int, done: Seq<ParamV>)
    requires
        placed(c, p),
        named_well(c),
        named_params(done),
    ensures
        params_at(c, p, done) matches Ok((params, p1)) ==> named_params(params),
    decreases c.toks.len() - p,
{
    if c.at(p) != TokV::RParen {
        lemma_param(c, p);
        lemma_ident(c, p);
        if let Ok((param, p1)) = param_at(c, p) {
            if c.at(p1) == TokV::Comma {
                lemma_params_named(c, p1 + 1, done.push(param));
            }
        }
    }
}

proof fn lemma_function_written(c: Input, p: int)
    requires
        placed(c, p),
        named_well(c),
        c.at(p) == TokV::Fn,
    ensures
        function_at(c, p) matches Ok((f, p1)) ==> written_function(f) && is_name(f.name),
{
    if let Ok((f, end)) = function_at(c, p) {
        let p1 = if c.at(p + 1) == TokV::LParen {
            lemma_param(c, p + 2);
            lemma_ident(c, p + 2);
            param_at(c, p + 2)->Ok_0.1 + 1
        } else {
            p + 1
        };
        lemma_ident(c, p1);
        let p2 = c.ident_then(p1, TokV::LParen)->Ok_0.1;
        lemma_params(c, p2, Seq::empty());
        lemma_params_named(c, p2, Seq::empty());
        let p3 = params_at(c, p2, Seq::empty())->Ok_0.1;
        lemma_return_type(c, p3);
        let p4 = return_type_at(c, p3)->Ok_0.1;
        lemma_block_written(c, p4 + 1);
        let names = param_names(f);
        let r = all_params(f).len() - f.params.len();
        assert forall|i: int| 0 <= i < names.len() implies own_name(#[trigger] names[i]) by {
            if i >= r {
                assert(all_params(f)[i] == f.params[i - r]);
            }
        }
    }
}

/// Whether the declarations of a program have names, structs each their own,
/// and its functions are written.
pub open spec fn well_written(p: ProgramV) -> bool {
    &&& forall|i: int| 0 <= i < p.externs.len() ==> is_name((#[trigger] p.externs[i]).name)
    &&& forall|i: int| 0 <= i < p.structs.len() ==> is_name((#[trigger] p.structs[i]).name)
    &&& forall|i: int, j: int|
        0 <= i < j < p.structs.len() ==> (#[trigger] p.structs[i]).name != (
        #[trigger] p.structs[j]).name
    &&& forall|i: int|
        0 <= i < p.functions.len() ==> is_name((#[trigger] p.functions[i]).name)
            && written_function(p.functions[i])
}

proof fn lemma_decls_written(c: Input, p: int, done: ProgramV)
    requires
        placed(c, p),
        named_well(c),
        well_written(done),
    ensures
        decls_at(c, p, done) matches Ok(all) ==> well_written(all),
    decreases c.toks.len() - p,
{
    match c.at(p) {
        TokV::Extern => {
            lemma_extern(c, p);
            if let Ok((d, p1)) = extern_at(c, p) {
                lemma_ident(c, p + 2);
                lemma_decls_written(c, p1, ProgramV { externs: done.externs.push(d), ..done });
            }
        },
        TokV::Fn => {
            lemma_function(c, p);
            lemma_function_written(c, p);
            if let Ok((d, p1)) = function_at(c, p) {
                let more = ProgramV { functions: done.functions.push(d), ..done };
                lemma_decls_written(c, p1, more);
            }
        },
        TokV::Struct => {
            lemma_struct(c, p);
            if let Ok((d, p1)) = struct_at(c, p) {
                lemma_ident(c, p + 1);
                if !has_struct(done.structs, d.name) {
                    lemma_decls_written(c, p1, ProgramV { structs: done.structs.push(d), ..done });
                }
            }
        },
        TokV::Enum => {
            lemma_enum(c, p);
            if let Ok((d, p1)) = enum_at(c, p) {
                lemma_decls_written(c, p1, ProgramV { enums: done.enums.push(d), ..done });
            }
        },
        _ => {},
    }
}

/// A parsed program is written with names of its own: no constructor, retain
/// or release is in it yet, and structs are told apart by their names.
pub proof fn law_programs_are_written(source: Seq<char>)
    ensures
        program_of(source) matches Ok(p) ==> well_written(p),
{
    if let Ok(toks) = lexed(source) {
        law_stream_ends_once(source);
        law_identifiers_are_names(source);
        let c = input_of(toks);
        assert(named_well(c));
        lemma_decls_written(c, 0, crate::ast::Program::empty());
    }
}

// ----- symbols ----------------------------------------------------------------------------------
/// Foreign functions that were entered have different names.
proof fn lemma_externs_differ(t: Tables, xs: Seq<ExternV>, i: int)
    requires
        0 <= i <= xs.len(),
        enter_externs(t, xs, i).1 is Ok,
    ensures
        ({
            let t1 = enter_externs(t, xs, i).0;
            &&& forall|k: int|
                i <= k < xs.len() ==> !t.functions.contains_key((#[trigger] xs[k]).name)
                    && t1.functions.contains_key(xs[k].name)
            &&& forall|n: Seq<char>| #[trigger]
                t.functions.contains_key(n) ==> t1.functions.contains_key(n)
            &&& forall|a: int, b: int|
                i <= a < b < xs.len() ==> (#[trigger] xs[a]).name != (#[trigger] xs[b]).name
        }),
    decreases xs.len() - i,
{
    if i < xs.len() {
        let x = xs[i];
        let sig = SigV { params: x.params, varargs: x.varargs, ret: x.ret };
        let t1 = Tables { functions: t.functions.insert(x.name, sig), ..t };
        lemma_externs_differ(t1, xs, i + 1);
        assert(t1.functions.contains_key(x.name));
        assert forall|k: int| i <= k < xs.len() implies !t.functions.contains_key(
            (#[trigger] xs[k]).name,
        ) by {
            if k > i {
                assert(!t1.functions.contains_key(xs[k].name));
            }
        }
        assert forall|a: int, b: int| i <= a < b < xs.len() implies (#[trigger] xs[a]).name != (
        #[trigger] xs[b]).name by {
            if a == i {
                assert(!t1.functions.contains_key(xs[b].name));
            }
        }
        assert forall|n: Seq<char>| #[trigger] t.functions.contains_key(n) implies enter_externs(
            t,
            xs,
            i,
        ).0.functions.contains_key(n) by {
            assert(t1.functions.contains_key(n));
        }
    }
}

/// Whether a name is taken for a function: by another one, or by a method of
/// the same struct.
spec fn taken(t: Tables, f: FunctionV) -> bool {
    match f.recv {
        None => t.functions.contains_key(f.name),
        Some(recv) => match recv.ty {
            Type::Struct(id) => t.methods[id as int].contains_key(f.name),
            _ => true,
        },
    }
}

/// Whether two functions are of the same kind: plain, or methods of the same
/// struct.
spec fn alike(f: FunctionV, g: FunctionV) -> bool {
    match (f.recv, g.recv) {
        (None, None) => true,
        (Some(a), Some(b)) => a.ty == b.ty,
        _ => false,
    }
}

proof fn lemma_functions_differ(t: Tables, fs: Seq<FunctionV>, ns: nat, ne: nat, i: int)
    requires
        0 <= i <= fs.len(),
        ns <= t.methods.len(),
        forall|k: int| 0 <= k < fs.len() ==> function_known(ns, ne, #[trigger] fs[k]),
        enter_functions(t, fs, i).1 is Ok,
    ensures
        forall|k: int| i <= k < fs.len() ==> !taken(t, #[trigger] fs[k]),
        forall|a: int, b: int|
            i <= a < b < fs.len() && alike(#[trigger] fs[a], #[trigger] fs[b]) ==> fs[a].name
                != fs[b].name,
    decreases fs.len() - i,
{
    if i < fs.len() {
        let f = fs[i];
        assert(function_known(ns, ne, f));
        let t1 = enter_function(t, f).0;
        assert(t1.methods.len() == t.methods.len());
        lemma_functions_differ(t1, fs, ns, ne, i + 1);
        assert forall|k: int| i <= k < fs.len() implies !taken(t, #[trigger] fs[k]) by {
            assert(function_known(ns, ne, fs[k]));
            if k > i {
                assert(!taken(t1, fs[k]));
            }
        }
        assert forall|a: int, b: int|
            i <= a < b < fs.len() && alike(#[trigger] fs[a], #[trigger] fs[b]) implies fs[a].name
            != fs[b].name by {
            if a == i {
                assert(!taken(t1, fs[b]));
                assert(function_known(ns, ne, fs[b]));
            }
        }
    }
}

/// A method's symbol tells struct and method apart.
proof fn lemma_symbols_split(s1: Seq<char>, m1: Seq<char>, s2: Seq<char>, m2: Seq<char>)
    requires
        is_name(s1),
        is_name(s2),
        Function::symbol(s1, m1) == Function::symbol(s2, m2),
    ensures
        s1 == s2,
        m1 == m2,
{
    reveal_strlit(".");
    let a = Function::symbol(s1, m1);
    let b = Function::symbol(s2, m2);
    assert(a[s1.len() as int] == '.');
    assert(b[s2.len() as int] == '.');
    if s1.len() < s2.len() {
        assert(b[s1.len() as int] == s2[s1.len() as int]);
    } else if s2.len() < s1.len() {
        assert(a[s2.len() as int] == s1[s2.len() as int]);
    }
    assert forall|i: int| 0 <= i < s1.len() implies s1[i] == s2[i] by {
        assert(a[i] == s1[i]);
        assert(b[i] == s2[i]);
    }
    assert(s1 =~= s2);
    assert(a.len() == s1.len() + 1 + m1.len());
    assert forall|i: int| 0 <= i < m1.len() implies m1[i] == m2[i] by {
        assert(a[s1.len() + 1 + i] == m1[i]);
        assert(b[s1.len() + 1 + i] == m2[i]);
    }
    assert(m1 =~= m2);
}

/// A name is no method's symbol.
proof fn lemma_no_symbol(name: Seq<char>, s: Seq<char>, m: Seq<char>)
    requires
        is_name(name),
    ensures
        name != Function::symbol(s, m),
{
    reveal_strlit(".");
    if name == Function::symbol(s, m) {
        assert(name[s.len() as int] == '.');
        assert(crate::lexer::is_word(name[s.len() as int]));
    }
}

/// No function is called like a builtin that lowering does not know.
pub open spec fn no_pop_or_find(p: ProgramV) -> bool {
    &&& forall|i: int|
        0 <= i < p.externs.len() ==> (#[trigger] p.externs[i]).name != "pop"@ && p.externs[i].name
            != "find"@
    &&& forall|i: int|
        0 <= i < p.functions.len() ==> (#[trigger] p.functions[i]).name != "pop"@
            && p.functions[i].name != "find"@
}

/// An accepted program has a symbol of its own for each function.
proof fn lemma_symbols_differ(p: ProgramV)
    requires
        program_known(p),
        well_written(p),
        no_pop_or_find(p),
        symbol_count(p) <= usize::MAX,
        analyzed(fresh_state(), p).2 is Ok,
    ensures
        distinct_symbols(p),
{
    let t = fresh_state().tables;
    let ns = p.structs.len();
    let t0 = Tables { structs: p.structs, methods: padded(t.methods, ns), ..t };
    let t1 = enter_structs(t0, p.structs, 0).0;
    let ta = Tables { enums: p.enums, ..t1 };
    let t2 = enter_enums(ta, p.enums, 0).0;
    let t3 = enter_all_variants(t2, p.enums, 0).0;
    let t4 = enter_externs(t3, p.externs, 0).0;
    lemma_externs_differ(t3, p.externs, 0);
    lemma_methods_kept(t0, p);
    lemma_functions_differ(t4, p.functions, ns, p.enums.len(), 0);
    let m = p.externs.len();
    reveal_strlit("pop");
    reveal_strlit("find");
    assert(is_name("pop"@) && is_name("find"@)) by {
        assert("pop"@.len() == 3 && "find"@.len() == 4);
    }
    assert forall|i: int, j: int| 0 <= i < j < symbol_count(p) implies #[trigger] symbol_key(p, i)
        != #[trigger] symbol_key(p, j) by {
        if j >= m {
            let g = p.functions[j - m];
            assert(is_name(g.name));
            assert(function_known(ns, p.enums.len(), g));
            assert(!taken(t4, g));
            if i < m {
                assert(is_name(p.externs[i].name));
                lemma_key_of(p, j - m, p.externs[i].name);
                assert(t4.functions.contains_key(p.externs[i].name));
            } else {
                let f = p.functions[i - m];
                assert(is_name(f.name));
                assert(function_known(ns, p.enums.len(), f));
                assert(!taken(t4, f));
                lemma_keys_differ(p, i - m, j - m);
            }
        }
    }
    assert forall|i: int| 0 <= i < symbol_count(p) implies #[trigger] symbol_key(p, i) != "pop"@
        && symbol_key(p, i) != "find"@ by {
        if i >= m {
            let f = p.functions[i - m];
            assert(function_known(ns, p.enums.len(), f));
            lemma_key_of(p, i - m, "pop"@);
            lemma_key_of(p, i - m, "find"@);
        }
    }
}

/// Functions are entered into tables with a place for each struct's methods.
proof fn lemma_methods_kept(t0: Tables, p: ProgramV)
    requires
        enter_structs(t0, p.structs, 0).1 is Ok,
        p.structs.len() <= t0.methods.len(),
    ensures
        ({
            let t1 = enter_structs(t0, p.structs, 0).0;
            let ta = Tables { enums: p.enums, ..t1 };
            let t2 = enter_enums(ta, p.enums, 0).0;
            let t3 = enter_all_variants(t2, p.enums, 0).0;
            let t4 = enter_externs(t3, p.externs, 0).0;
            t4.methods == t0.methods
        }),
{
    lemma_structs_keep_methods(t0, p.structs, 0);
    let t1 = enter_structs(t0, p.structs, 0).0;
    let ta = Tables { enums: p.enums, ..t1 };
    crate::acceptance::lemma_enums_entered(ta, p.enums, 0);
    let t2 = enter_enums(ta, p.enums, 0).0;
    crate::acceptance::lemma_all_variants_entered(t2, p.enums, 0);
    let t3 = enter_all_variants(t2, p.enums, 0).0;
    lemma_externs_keep_methods(t3, p.externs, 0);
}

proof fn lemma_structs_keep_methods(t: Tables, ss: Seq<StructV>, i: int)
    requires
        0 <= i <= ss.len(),
    ensures
        enter_structs(t, ss, i).0.methods == t.methods,
    decreases ss.len() - i,
{
    if i < ss.len() {
        let t1 = Tables { struct_ids: t.struct_ids.insert(ss[i].name, i as u32), ..t };
        lemma_structs_keep_methods(t1, ss, i + 1);
    }
}

proof fn lemma_externs_keep_methods(t: Tables, xs: Seq<ExternV>, i: int)
    requires
        0 <= i <= xs.len(),
    ensures
        enter_externs(t, xs, i).0.methods == t.methods,
    decreases xs.len() - i,
{
    if i < xs.len() {
        let x = xs[i];
        let sig = SigV { params: x.params, varargs: x.varargs, ret: x.ret };
        let t1 = Tables { functions: t.functions.insert(x.name, sig), ..t };
        lemma_externs_keep_methods(t1, xs, i + 1);
    }
}

/// A function is called by a name only if it is a plain function of that name.
proof fn lemma_key_of(p: ProgramV, k: int, name: Seq<char>)
    requires
        0 <= k < p.functions.len(),
        is_name(name),
        function_known(p.structs.len(), p.enums.len(), p.functions[k]),
        p.functions[k].recv matches Some(recv) ==> recv.ty is Struct,
    ensures
        function_key(p.structs, p.functions[k]) == name ==> p.functions[k].recv is None
            && p.functions[k].name == name,
{
    let f = p.functions[k];
    if let Some(recv) = f.recv {
        if let Type::Struct(id) = recv.ty {
            lemma_no_symbol(name, p.structs[id as int].name, f.name);
        }
    }
}

proof fn lemma_keys_differ(p: ProgramV, a: int, b: int)
    requires
        0 <= a < b < p.functions.len(),
        well_written(p),
        function_known(p.structs.len(), p.enums.len(), p.functions[a]),
        function_known(p.structs.len(), p.enums.len(), p.functions[b]),
        p.functions[a].recv matches Some(recv) ==> recv.ty is Struct,
        p.functions[b].recv matches Some(recv) ==> recv.ty is Struct,
        alike(p.functions[a], p.functions[b]) ==> p.functions[a].name != p.functions[b].name,
    ensures
        function_key(p.structs, p.functions[a]) != function_key(p.structs, p.functions[b]),
{
    let f = p.functions[a];
    let g = p.functions[b];
    assert(is_name(f.name));
    assert(is_name(g.name));
    match (f.recv, g.recv) {
        (None, None) => {},
        (None, Some(_)) => {
            lemma_key_of(p, b, f.name);
        },
        (Some(_), None) => {
            lemma_key_of(p, a, g.name);
        },
        (Some(r), Some(q)) => {
            if let (Type::Struct(i), Type::Struct(j)) = (r.ty, q.ty) {
                let s = p.structs[i as int];
                let u = p.structs[j as int];
                assert(is_name(s.name));
                assert(is_name(u.name));
                if Function::symbol(s.name, f.name) == Function::symbol(u.name, g.name) {
                    lemma_symbols_split(s.name, f.name, u.name, g.name);
                    if i < j {
                        assert(s.name != u.name);
                    } else if j < i {
                        assert(u.name != s.name);
                    }
                }
            }
        },
    }
}

/// A source text that parses and that the analysis accepts is lowered, once
/// its references are counted, but for what is left to lowering: `pop`,
/// `find` and a character of a string, the value of a call that returns none, a
/// function whose end may be reached, and parameters of `main`.
pub proof fn law_accepted_sources_lower(tmp: usize, source: Seq<char>)
    ensures
        program_of(source) matches Ok(p) ==> {
            &&& p.enums.len() <= u32::MAX
            &&& symbol_count(p) <= usize::MAX
            &&& no_pop_or_find(p)
            &&& analyzed(fresh_state(), p).2 is Ok
        } ==> (lowered(arc_program(tmp, analyzed(fresh_state(), p).0).0) matches Err(m)
            ==> refusable(p, m)),
{
    if let Ok(p) = program_of(source) {
        if p.enums.len() <= u32::MAX && symbol_count(p) <= usize::MAX && no_pop_or_find(p)
            && analyzed(fresh_state(), p).2 is Ok {
            law_types_resolve(source);
            law_programs_are_written(source);
            lemma_symbols_differ(p);
            law_accepted_programs_lower(tmp, p);
        }
    }
}

/// The references of a source text that parses and that the analysis accepts
/// balance, in every function, once they are counted.
pub proof fn law_accepted_sources_balance(tmp: usize, source: Seq<char>)
    ensures
        program_of(source) matches Ok(p) ==> analyzed(fresh_state(), p).2 is Ok ==> {
            let fs = arc_program(tmp, analyzed(fresh_state(), p).0).0.functions;
            &&& fs.len() == p.functions.len()
            &&& forall|i: int| 0 <= i < fs.len() ==> function_balanced(#[trigger] fs[i])
        },
{
    if let Ok(p) = program_of(source) {
        if analyzed(fresh_state(), p).2 is Ok {
            law_programs_are_written(source);
            law_program_balances(tmp, p);
        }
    }
}

} // verus!
