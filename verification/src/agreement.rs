//! What the analysis accepts can be lowered: the rules of typing and the
//! rules of lowering agree.
use vstd::prelude::*;
use crate::ast::{BinOp, ExprV, Function, KindV, ParamV, Type, UnOp};
use crate::diag::Span;
use crate::grammar::checked_array;
use crate::ir::{Callee, Ins, Mark, Rt, Ty, Val};
use crate::lowering::{
    array_kind, array_room, begin, call_rt, emit, find_var, flush, label, low_array, low_binary,
    low_builtin, low_call, low_elems, low_expr, low_exprs, low_len, low_method, low_print,
    low_short_circuit, low_str, low_symbol, low_unary, low_var, no_value, one_argument, reg, str_op,
    ty_of, variant_fits, Cx, Gen, Slots, Step, Value,
};
use crate::naming::own_name;
use crate::shape::{
    lemma_begin, lemma_call, lemma_elems, lemma_emit, lemma_expr, lemma_exprs, lemma_flush_on,
    ready,
};
use crate::text::dec;
use crate::typing::{
    builtin, builtin_type, constructs, known, lookup, opaque, params_known, sig_known, tables_known,
    typed, typed_array, typed_call, typed_kind, typed_list, typed_method, Scopes, Tables, Want,
};

verus! {

// ----- trees as they are written -----------------------------------------------------------
/// Whether a tree holds no constructor yet: the analysis makes them.
pub open spec fn written_expr(e: ExprV) -> bool
    decreases e,
{
    written_kind(e.kind)
}

pub open spec fn written_kind(k: KindV) -> bool
    decreases k,
{
    match k {
        KindV::Unary(_, a) => written_expr(*a),
        KindV::Binary(a, _, b) => written_expr(*a) && written_expr(*b),
        KindV::Call(_, args) => written_exprs(args),
        KindV::MethodCall(r, _, args) => written_expr(*r) && written_exprs(args),
        KindV::ArrayLit(es) => written_exprs(es),
        KindV::Index(a, b) => written_expr(*a) && written_expr(*b),
        KindV::Field(a, _) => written_expr(*a),
        KindV::EnumInit(..) => false,
        _ => true,
    }
}

pub open spec fn written_exprs(es: Seq<ExprV>) -> bool
    decreases es,
{
    forall|i: int| 0 <= i < es.len() ==> written_expr(#[trigger] es[i])
}

// ----- what both sides know ---------------------------------------------------------------------
/// Whether a name leads to a symbol with that result.
pub open spec fn leads_to(cx: Cx, key: Seq<char>, ret: Type) -> bool {
    &&& cx.callees.contains_key(key)
    &&& cx.callees[key] < cx.symbols.len()
    &&& cx.symbols[cx.callees[key] as int].ret == ret
}

/// Whether analysis and lowering know the same declarations.
#[verifier::opaque]
pub open spec fn agree(t: Tables, cx: Cx) -> bool {
    &&& cx.structs == t.structs
    &&& cx.enums == t.enums
    &&& cx.struct_ids == t.struct_ids
    &&& forall|k: Seq<char>| #[trigger] t.struct_ids.contains_key(k) ==> !builtin(k)
    &&& !cx.callees.contains_key("pop"@)
    &&& !cx.callees.contains_key("find"@)
    &&& forall|k: Seq<char>| #[trigger]
        t.functions.contains_key(k) ==> leads_to(cx, k, t.functions[k].ret)
    &&& forall|i: int, k: Seq<char>|
        0 <= i < t.structs.len() && #[trigger] t.methods[i].contains_key(k) ==> leads_to(
            cx,
            Function::symbol(t.structs[i].name, k),
            t.methods[i][k].ret,
        )
}

/// Whether a variable of that name and type has a slot.
pub open spec fn has_var(vars: Seq<Slots>, name: Seq<char>, ty: Type) -> bool {
    find_var(vars, name) matches Some((slot, found)) && found == ty
}

/// Whether lowering has a slot for every variable that the analysis knows.
#[verifier::opaque]
pub open spec fn sees(t: Tables, sc: Scopes, vars: Seq<Slots>) -> bool {
    forall|name: Seq<char>| #[trigger]
        lookup(sc, name) is Some ==> {
            let ty = lookup(sc, name)->0;
            &&& known(t.structs.len(), t.enums.len(), ty)
            &&& own_name(name)
            &&& has_var(vars, name, ty)
        }
}

// ----- what lowering may still refuse ------------------------------------------------------------
/// A call of a builtin that lowering does not know.
pub open spec fn unknown_function(name: Seq<char>, line: usize) -> Seq<char> {
    "codegen: unknown function `"@ + name + "` (line "@ + dec(line as nat) + ")"@
}

/// The errors that are left to lowering within an accepted function: `pop` and
/// `find`, a character of a string, and the value of a call that returns none.
pub open spec fn left_over(m: Seq<char>) -> bool {
    ||| m == "codegen: indexing a non-array"@
    ||| exists|line: usize| m == #[trigger] unknown_function("pop"@, line)
    ||| exists|line: usize| m == #[trigger] unknown_function("find"@, line)
    ||| exists|name: Seq<char>, line: usize| m == #[trigger] no_value(name, line)
}

/// Whether a value was made that has the machine type of `ty`.
pub open spec fn makes(r: Step<Value>, ty: Type) -> bool {
    match r {
        Ok((g1, v)) => v.1 == ty_of(ty),
        Err(m) => left_over(m),
    }
}

/// The same of a call, which may come without a value.
pub open spec fn calls_for(r: Step<Option<Value>>, ty: Type) -> bool {
    match r {
        Ok((g1, Some(v))) => v.1 == ty_of(ty),
        Ok((g1, None)) => ty == Type::Unit,
        Err(m) => left_over(m),
    }
}

// ----- lists -------------------------------------------------------------------------------------
/// Whether the expressions of `es1` are those of `es`, accepted.
spec fn accepted(t: Tables, sc: Scopes, es: Seq<ExprV>, es1: Seq<ExprV>) -> bool {
    &&& es1.len() == es.len()
    &&& forall|i: int|
        0 <= i < es.len() ==> (#[trigger] es1[i]) == typed(t, sc, es[i]).0 && typed(
            t,
            sc,
            es[i],
        ).1 is Ok
}

proof fn lemma_list(t: Tables, sc: Scopes, es: Seq<ExprV>, w: Want, i: int)
    requires
        0 <= i <= es.len(),
        typed_list(t, sc, es, w, i).1 is Ok,
    ensures
        ({
            let es1 = typed_list(t, sc, es, w, i).0;
            &&& es1.len() == es.len() - i
            &&& forall|k: int|
                0 <= k < es1.len() ==> (#[trigger] es1[k]) == typed(t, sc, es[i + k]).0 && typed(
                    t,
                    sc,
                    es[i + k],
                ).1 is Ok
        }),
    decreases es.len() - i,
{
    if i < es.len() {
        lemma_list(t, sc, es, w, i + 1);
        let e = typed(t, sc, es[i]).0;
        let rest = typed_list(t, sc, es, w, i + 1).0;
        let es1 = seq![e] + rest;
        assert forall|k: int| 0 <= k < es1.len() implies (#[trigger] es1[k]) == typed(
            t,
            sc,
            es[i + k],
        ).0 && typed(t, sc, es[i + k]).1 is Ok by {
            if k > 0 {
                assert(es1[k] == rest[k - 1]);
                assert(i + 1 + (k - 1) == i + k);
            }
        }
    }
}

proof fn lemma_whole_list(t: Tables, sc: Scopes, es: Seq<ExprV>, w: Want)
    requires
        typed_list(t, sc, es, w, 0).1 is Ok,
    ensures
        accepted(t, sc, es, typed_list(t, sc, es, w, 0).0),
{
    lemma_list(t, sc, es, w, 0);
    let es1 = typed_list(t, sc, es, w, 0).0;
    assert forall|i: int| 0 <= i < es.len() implies (#[trigger] es1[i]) == typed(t, sc, es[i]).0
        && typed(t, sc, es[i]).1 is Ok by {
        assert(0 + i == i);
    }
}

/// The builtins have names of their own.
proof fn lemma_builtin_names()
    ensures
        "pop"@ != "print"@,
        "pop"@ != "str"@,
        "pop"@ != "len"@,
        "pop"@ != "push"@,
        "find"@ != "print"@,
        "find"@ != "str"@,
        "find"@ != "len"@,
        "find"@ != "push"@,
        "push"@ != "print"@,
        "push"@ != "str"@,
        "push"@ != "len"@,
        "str"@ != "print"@,
        "len"@ != "print"@,
        "len"@ != "str"@,
{
    reveal_strlit("print");
    reveal_strlit("str");
    reveal_strlit("len");
    reveal_strlit("push");
    reveal_strlit("pop");
    reveal_strlit("find");
    assert("pop"@.len() == 3 && "str"@.len() == 3 && "len"@.len() == 3);
    assert("find"@.len() == 4 && "push"@.len() == 4 && "print"@.len() == 5);
    assert("pop"@[0] == 'p' && "str"@[0] == 's' && "len"@[0] == 'l');
    assert("find"@[0] == 'f' && "push"@[0] == 'p');
}

proof fn lemma_field(fields: Seq<ParamV>, name: Seq<char>, i: int)
    requires
        0 <= i,
    ensures
        crate::ast::field_from(fields, name, i) matches Some((k, ty)) ==> i <= k < fields.len()
            && fields[k].ty == ty,
    decreases fields.len() - i,
{
    if i < fields.len() {
        lemma_field(fields, name, i + 1);
    }
}

// ----- operations --------------------------------------------------------------------------------
proof fn lemma_var_makes(t: Tables, sc: Scopes, g: Gen, name: Seq<char>)
    requires
        sees(t, sc, g.vars),
        lookup(sc, name) is Some,
    ensures
        makes(low_var(g, name), lookup(sc, name)->0),
        known(t.structs.len(), t.enums.len(), lookup(sc, name)->0),
{
    reveal(sees);
    reveal(low_var);
}

proof fn lemma_unary_makes(g: Gen, op: UnOp, v: Value, ty: Type)
    requires
        v.1 == ty_of(ty),
        crate::typing::unary_type(op, ty) is Ok,
    ensures
        makes(low_unary(g, op, v), crate::typing::unary_type(op, ty)->Ok_0),
{
    reveal(low_unary);
}

proof fn lemma_binary_makes(t: Tables, g: Gen, op: BinOp, l: Value, r: Value, lt: Type, rt: Type)
    requires
        l.1 == ty_of(lt),
        r.1 == ty_of(rt),
        op != BinOp::And,
        op != BinOp::Or,
        crate::typing::binary_type(t, op, lt, rt) is Ok,
    ensures
        makes(low_binary(g, op, l, r), crate::typing::binary_type(t, op, lt, rt)->Ok_0),
{
    reveal(low_binary);
    reveal(str_op);
}

proof fn lemma_builtin_makes(t: Tables, g: Gen, name: Seq<char>, v: Val, at: Type)
    requires
        one_argument(name),
        builtin_type(t, name, at) is Ok,
    ensures
        calls_for(low_builtin(g, name, v, Some(at)), builtin_type(t, name, at)->Ok_0),
{
    lemma_builtin_names();
    reveal(low_builtin);
    reveal(low_print);
    reveal(low_str);
    reveal(low_len);
}

proof fn lemma_symbol_makes(cx: Cx, g: Gen, key: Seq<char>, ret: Type, args: Seq<Value>)
    requires
        leads_to(cx, key, ret),
    ensures
        calls_for(Ok(low_symbol(cx, g, cx.callees[key], args)), ret),
{
    reveal(low_symbol);
}

// ----- expressions -------------------------------------------------------------------------------
/// An accepted expression is lowered to a value of its type.
pub(crate) proof fn lemma_makes(t: Tables, cx: Cx, sc: Scopes, g: Gen, e: ExprV)
    requires
        agree(t, cx),
        tables_known(t),
        ready(g),
        sees(t, sc, g.vars),
        written_expr(e),
        typed(t, sc, e).1 is Ok,
    ensures
        typed(t, sc, e).0.ty == Some(typed(t, sc, e).1->Ok_0),
        known(t.structs.len(), t.enums.len(), typed(t, sc, e).1->Ok_0),
        makes(low_expr(cx, g, typed(t, sc, e).0), typed(t, sc, e).1->Ok_0),
    decreases e, 4nat,
{
    assert(written_kind(e.kind));
    match constructs(t, sc, e) {
        Some((eid, vid)) => {
            reveal(agree);
            reveal(tables_known);
            let fields = t.enums[eid as int].variants[vid as int].fields;
            let e1 = typed(t, sc, e).0;
            assert(variant_fits(cx, eid, vid, fields.len()));
            if let KindV::Call(name, args) = e.kind {
                let w = Want::Payload { name, fields };
                lemma_whole_list(t, sc, args, w);
                let args1 = typed_list(t, sc, args, w, 0).0;
                assert(e1.kind == KindV::EnumInit(eid, vid, args1));
                lemma_list_makes(t, cx, sc, g, args, args1, args.len());
                reveal(crate::lowering::low_variant);
            } else {
                assert(e1.kind == KindV::EnumInit(eid, vid, Seq::empty()));
                assert(low_exprs(cx, g, Seq::empty(), 0) == Ok::<(Gen, Seq<Value>), Seq<char>>(
                    (g, Seq::empty()),
                ));
                reveal(crate::lowering::low_variant);
            }
        },
        None => {
            lemma_kind_makes(t, cx, sc, g, e);
        },
    }
}

/// The same of an expression that constructs no variant.
proof fn lemma_kind_makes(t: Tables, cx: Cx, sc: Scopes, g: Gen, e: ExprV)
    requires
        agree(t, cx),
        tables_known(t),
        ready(g),
        sees(t, sc, g.vars),
        written_expr(e),
        typed(t, sc, e).1 is Ok,
        constructs(t, sc, e) is None,
    ensures
        known(t.structs.len(), t.enums.len(), typed(t, sc, e).1->Ok_0),
        makes(low_expr(cx, g, typed(t, sc, e).0), typed(t, sc, e).1->Ok_0),
    decreases e, 3nat,
{
    assert(written_kind(e.kind));
    let e1 = typed(t, sc, e).0;
    let ty = typed(t, sc, e).1->Ok_0;
    assert(typed_kind(t, sc, e.kind, e.span).0 == e1.kind);
    match e.kind {
        KindV::Var(name) => {
            lemma_var_makes(t, sc, g, name);
        },
        KindV::Unary(op, a) => {
            lemma_makes(t, cx, sc, g, *a);
            let (a1, ra) = typed(t, sc, *a);
            if let Ok((g1, v)) = low_expr(cx, g, a1) {
                lemma_unary_makes(g1, op, v, ra->Ok_0);
            }
        },
        KindV::Binary(a, op, b) => {
            lemma_binary_expr_makes(t, cx, sc, g, e);
        },
        KindV::Call(name, args) => {
            lemma_call_makes(t, cx, sc, g, name, args, e.span, e.span.line);
            let args1 = typed_call(t, sc, name, args, e.span).0;
            assert(e1.kind == KindV::Call(name, args1));
            assert(left_over(no_value(name, e.span.line)));
        },
        KindV::MethodCall(recv, name, args) => {
            lemma_method_makes(t, cx, sc, g, e);
            assert(left_over(no_value(name, e.span.line)));
        },
        KindV::ArrayLit(es) => {
            lemma_array_makes(t, cx, sc, g, es, e.span);
            let es1 = typed_array(t, sc, es, e.span).0;
            assert(e1.kind == KindV::ArrayLit(es1));
            assert(e1.ty == Some(ty));
        },
        KindV::Index(a, b) => {
            lemma_makes(t, cx, sc, g, *a);
            let (a1, ra) = typed(t, sc, *a);
            let (b1, rb) = typed(t, sc, *b);
            assert(e1.kind == KindV::Index(Box::new(a1), Box::new(b1)));
            lemma_expr(cx, g, a1);
            if let Ok((g1, arr)) = low_expr(cx, g, a1) {
                lemma_makes(t, cx, sc, g1, *b);
                reveal(crate::lowering::low_index);
            }
        },
        KindV::Field(a, name) => {
            lemma_makes(t, cx, sc, g, *a);
            let (a1, ra) = typed(t, sc, *a);
            assert(e1.kind == KindV::Field(Box::new(a1), name));
            if let Type::Struct(id) = ra->Ok_0 {
                reveal(agree);
                reveal(tables_known);
                lemma_field(t.structs[id as int].fields, name, 0);
                assert(params_known(t.structs.len(), t.enums.len(), t.structs[id as int].fields));
                reveal(crate::lowering::low_field);
            }
        },
        _ => {},
    }
}

/// The same of an operation with two operands.
proof fn lemma_binary_expr_makes(t: Tables, cx: Cx, sc: Scopes, g: Gen, e: ExprV)
    requires
        agree(t, cx),
        tables_known(t),
        ready(g),
        sees(t, sc, g.vars),
        written_expr(e),
        typed(t, sc, e).1 is Ok,
        e.kind is Binary,
    ensures
        known(t.structs.len(), t.enums.len(), typed(t, sc, e).1->Ok_0),
        makes(low_expr(cx, g, typed(t, sc, e).0), typed(t, sc, e).1->Ok_0),
    decreases e, 2nat,
{
    assert(written_kind(e.kind));
    assert(constructs(t, sc, e) is None);
    let e1 = typed(t, sc, e).0;
    assert(typed_kind(t, sc, e.kind, e.span).0 == e1.kind);
    if let KindV::Binary(a, op, b) = e.kind {
        let (a1, ra) = typed(t, sc, *a);
        let (b1, rb) = typed(t, sc, *b);
        assert(e1.kind == KindV::Binary(Box::new(a1), op, Box::new(b1)));
        lemma_makes(t, cx, sc, g, *a);
        lemma_expr(cx, g, a1);
        if let Ok((g1, l)) = low_expr(cx, g, a1) {
            if op == BinOp::And || op == BinOp::Or {
                let checkpoint = g.temps.len();
                lemma_flush_on(g, g1);
                let g2 = flush(g1, checkpoint);
                let rhs = label(g2, Mark::ScRhs);
                let end = label(g2, Mark::ScEnd);
                let branch = if op == BinOp::And {
                    Ins::CondBr(l.0, rhs, end)
                } else {
                    Ins::CondBr(l.0, end, rhs)
                };
                lemma_emit(g2, branch);
                lemma_begin(emit(g2, branch), rhs);
                let g3 = begin(emit(g2, branch), rhs);
                lemma_makes(t, cx, sc, g3, *b);
                assert(low_expr(cx, g, e1) == low_short_circuit(cx, g, e1));
            } else {
                lemma_makes(t, cx, sc, g1, *b);
                if let Ok((g2, r)) = low_expr(cx, g1, b1) {
                    lemma_binary_makes(t, g2, op, l, r, ra->Ok_0, rb->Ok_0);
                }
            }
        }
    }
}

/// The values of an accepted list.
proof fn lemma_list_makes(
    t: Tables,
    cx: Cx,
    sc: Scopes,
    g: Gen,
    es: Seq<ExprV>,
    es1: Seq<ExprV>,
    n: nat,
)
    requires
        agree(t, cx),
        tables_known(t),
        ready(g),
        sees(t, sc, g.vars),
        written_exprs(es),
        accepted(t, sc, es, es1),
        n <= es.len(),
    ensures
        low_exprs(cx, g, es1, n) matches Err(m) ==> left_over(m),
    decreases es, n,
{
    if n > 0 {
        lemma_list_makes(t, cx, sc, g, es, es1, (n - 1) as nat);
        lemma_exprs(cx, g, es1, (n - 1) as nat);
        if let Ok((g1, vals)) = low_exprs(cx, g, es1, (n - 1) as nat) {
            assert(written_expr(es[n - 1]));
            assert(es1[n - 1] == typed(t, sc, es[n - 1]).0);
            lemma_makes(t, cx, sc, g1, es[n - 1]);
        }
    }
}

/// The elements of an accepted array literal.
proof fn lemma_elems_make(
    t: Tables,
    cx: Cx,
    sc: Scopes,
    g: Gen,
    arr: Val,
    elem: Type,
    es: Seq<ExprV>,
    es1: Seq<ExprV>,
    n: nat,
)
    requires
        agree(t, cx),
        tables_known(t),
        ready(g),
        sees(t, sc, g.vars),
        written_exprs(es),
        accepted(t, sc, es, es1),
        n <= es.len(),
    ensures
        low_elems(cx, g, arr, elem, es1, n) matches Err(m) ==> left_over(m),
    decreases es, n,
{
    if n > 0 {
        lemma_elems_make(t, cx, sc, g, arr, elem, es, es1, (n - 1) as nat);
        lemma_elems(cx, g, arr, elem, es1, (n - 1) as nat);
        if let Ok(g1) = low_elems(cx, g, arr, elem, es1, (n - 1) as nat) {
            assert(written_expr(es[n - 1]));
            assert(es1[n - 1] == typed(t, sc, es[n - 1]).0);
            lemma_makes(t, cx, sc, g1, es[n - 1]);
        }
    }
}

/// An accepted array literal.
proof fn lemma_array_makes(
    t: Tables,
    cx: Cx,
    sc: Scopes,
    g: Gen,
    es: Seq<ExprV>,
    span: Span,
)
    requires
        agree(t, cx),
        tables_known(t),
        ready(g),
        sees(t, sc, g.vars),
        written_exprs(es),
        typed_array(t, sc, es, span).1 is Ok,
    ensures
        known(t.structs.len(), t.enums.len(), typed_array(t, sc, es, span).1->Ok_0),
        makes(
            low_array(
                cx,
                g,
                typed_array(t, sc, es, span).0,
                Some(typed_array(t, sc, es, span).1->Ok_0),
            ),
            typed_array(t, sc, es, span).1->Ok_0,
        ),
    decreases es, es.len() + 2,
{
    let (es1, r) = typed_array(t, sc, es, span);
    let array = r->Ok_0;
    let (first, r0) = typed(t, sc, es[0]);
    let ty = r0->Ok_0;
    let w = Want::Elems { first: ty };
    assert(written_expr(es[0]));
    lemma_makes(t, cx, sc, g, es[0]);
    assert(checked_array(ty) == Some(array));
    lemma_list(t, sc, es, w, 1);
    let rest = typed_list(t, sc, es, w, 1).0;
    assert forall|i: int| 0 <= i < es.len() implies (#[trigger] es1[i]) == typed(t, sc, es[i]).0
        && typed(t, sc, es[i]).1 is Ok by {
        if i > 0 {
            assert(es1[i] == rest[i - 1]);
            assert(1 + (i - 1) == i);
        }
    }
    let elem = array.elem()->0;
    let args = seq![
        (Val::Int(array_kind(elem)), Ty::I64),
        (Val::Int(array_room(es1.len())), Ty::I64),
    ];
    lemma_call(g, Ty::Ptr, Callee::Runtime(Rt::ArrNew), args);
    let g1 = call_rt(g, Ty::Ptr, Rt::ArrNew, args);
    lemma_elems_make(t, cx, sc, g1, reg(g1), elem, es, es1, es.len());
}

/// An accepted call.
pub(crate) proof fn lemma_call_makes(
    t: Tables,
    cx: Cx,
    sc: Scopes,
    g: Gen,
    name: Seq<char>,
    args: Seq<ExprV>,
    span: Span,
    line: usize,
)
    requires
        agree(t, cx),
        tables_known(t),
        ready(g),
        sees(t, sc, g.vars),
        written_exprs(args),
        typed_call(t, sc, name, args, span).1 is Ok,
    ensures
        known(t.structs.len(), t.enums.len(), typed_call(t, sc, name, args, span).1->Ok_0),
        calls_for(
            low_call(cx, g, name, typed_call(t, sc, name, args, span).0, line),
            typed_call(t, sc, name, args, span).1->Ok_0,
        ),
    decreases args, args.len() + 2,
{
    let (args1, r) = typed_call(t, sc, name, args, span);
    let ret = r->Ok_0;
    lemma_builtin_names();
    if builtin(name) {
        if name == "find"@ || name == "pop"@ {
            reveal(agree);
            assert(!cx.struct_ids.contains_key(name));
            assert(low_call(cx, g, name, args1, line) == Err::<(Gen, Option<Value>), Seq<char>>(
                unknown_function(name, line),
            ));
            if name == "pop"@ {
                assert(written_expr(args[0]));
                lemma_makes(t, cx, sc, g, args[0]);
            }
        } else {
            assert(written_expr(args[0]));
            lemma_makes(t, cx, sc, g, args[0]);
            let (first, r0) = typed(t, sc, args[0]);
            let at = r0->Ok_0;
            assert(args1[0] == first);
            lemma_expr(cx, g, first);
            if name == "push"@ {
                assert(written_expr(args[1]));
                let (second, r1) = typed(t, sc, args[1]);
                assert(args1[1] == second);
                if let Ok((g1, arr)) = low_expr(cx, g, first) {
                    lemma_makes(t, cx, sc, g1, args[1]);
                }
            } else {
                if let Ok((g1, v)) = low_expr(cx, g, first) {
                    lemma_builtin_makes(t, g1, name, v.0, at);
                }
            }
        }
    } else if t.struct_ids.contains_key(name) {
        reveal(agree);
        reveal(tables_known);
        let id = t.struct_ids[name];
        let def = t.structs[id as int];
        let w = Want::Fields { def };
        lemma_whole_list(t, sc, args, w);
        lemma_list_makes(t, cx, sc, g, args, args1, args.len());
        reveal(crate::lowering::low_struct);
    } else {
        assert(t.functions.contains_key(name));
        let sig = t.functions[name];
        let w = Want::Params { name, sig, span };
        assert(leads_to(cx, name, sig.ret) && cx.struct_ids
            == t.struct_ids) by {
            reveal(agree);
        }
        assert(sig_known(t.structs.len(), t.enums.len(), sig)) by {
            reveal(tables_known);
        }
        lemma_whole_list(t, sc, args, w);
        lemma_list_makes(t, cx, sc, g, args, args1, args.len());
        if let Ok((g1, vals)) = low_exprs(cx, g, args1, args1.len()) {
            lemma_symbol_makes(cx, g1, name, sig.ret, vals);
        }
    }
}

/// An accepted method call.
pub(crate) proof fn lemma_method_makes(t: Tables, cx: Cx, sc: Scopes, g: Gen, e: ExprV)
    requires
        agree(t, cx),
        tables_known(t),
        ready(g),
        sees(t, sc, g.vars),
        written_expr(e),
        typed(t, sc, e).1 is Ok,
        e.kind is MethodCall,
    ensures
        known(t.structs.len(), t.enums.len(), typed(t, sc, e).1->Ok_0),
        calls_for(low_method(cx, g, typed(t, sc, e).0), typed(t, sc, e).1->Ok_0),
    decreases e, 2nat,
{
    assert(written_kind(e.kind));
    assert(constructs(t, sc, e) is None);
    let e1 = typed(t, sc, e).0;
    assert(typed_kind(t, sc, e.kind, e.span).0 == e1.kind);
    if let KindV::MethodCall(recv, name, args) = e.kind {
        let (recv1, rr) = typed(t, sc, *recv);
        let rt = rr->Ok_0;
        lemma_makes(t, cx, sc, g, *recv);
        let args1 = typed_method(t, sc, rt, recv1.span, name, args, e.span).0;
        assert(e1.kind == KindV::MethodCall(Box::new(recv1), name, args1));
        if let Type::Struct(id) = rt {
            let sig = t.methods[id as int][name];
            let key = Function::symbol(t.structs[id as int].name, name);
            let w = Want::Method { name, sig };
            assert(leads_to(cx, key, sig.ret) && cx.structs
                == t.structs) by {
                reveal(agree);
            }
            assert(sig_known(t.structs.len(), t.enums.len(), sig)) by {
                reveal(tables_known);
            }
            lemma_whole_list(t, sc, args, w);
            lemma_expr(cx, g, recv1);
            if let Ok((g1, base)) = low_expr(cx, g, recv1) {
                lemma_list_makes(t, cx, sc, g1, args, args1, args.len());
                if let Ok((g2, vals)) = low_exprs(cx, g1, args1, args1.len()) {
                    lemma_symbol_makes(cx, g2, key, sig.ret, seq![base] + vals);
                }
            }
        }
    }
}

} // verus!
