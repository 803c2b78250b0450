//! The typing rules of the language, as a relation between expressions and
//! types. The analysis accepts an expression just where a rule gives it a type,
//! and finds that type.
use vstd::prelude::*;
use crate::ast::{BinOp, ExprV, KindV, ParamV, Type, UnOp};
use crate::diag::{Fault, Span};
use crate::typing::{
    builtin, constructs, lookup, typed, typed_array, typed_call, typed_kind, typed_list, Scopes,
    SigV, Tables, Want,
};

verus! {

// ----- operators --------------------------------------------------------------------------------
/// Any type.
pub open spec fn any_type(ty: Type) -> bool {
    true
}

/// The types of numbers.
pub open spec fn number(ty: Type) -> bool {
    ty == Type::Int || ty == Type::Float
}

/// The types whose values can be compared, printed and turned into text.
pub open spec fn plain_value(ty: Type) -> bool {
    number(ty) || ty == Type::Bool || ty == Type::Str
}

/// `+`, `-`, `*`, `/` and `%`.
pub open spec fn arithmetic(op: BinOp) -> bool {
    op == BinOp::Add || op == BinOp::Sub || op == BinOp::Mul || op == BinOp::Div || op == BinOp::Rem
}

/// `==` and `!=`.
pub open spec fn equality(op: BinOp) -> bool {
    op == BinOp::Eq || op == BinOp::Ne
}

/// `<`, `<=`, `>` and `>=`.
pub open spec fn ordering(op: BinOp) -> bool {
    op == BinOp::Lt || op == BinOp::Le || op == BinOp::Gt || op == BinOp::Ge
}

/// Whether two operands of type `arg` make an operation of type `ty`: numbers
/// are calculated with and ordered, strings are joined, plain values are compared
/// for equality, and truth values are combined.
pub open spec fn operates(op: BinOp, arg: Type, ty: Type) -> bool {
    ||| arithmetic(op) && number(arg) && ty == arg
    ||| op == BinOp::Add && arg == Type::Str && ty == Type::Str
    ||| equality(op) && plain_value(arg) && ty == Type::Bool
    ||| ordering(op) && number(arg) && ty == Type::Bool
    ||| (op == BinOp::And || op == BinOp::Or) && arg == Type::Bool && ty == Type::Bool
}

// ----- expressions ------------------------------------------------------------------------------
/// Whether a name stands for a variable of that type: its innermost declaration
/// says so.
pub open spec fn declared_as(sc: Scopes, name: Seq<char>, ty: Type) -> bool {
    exists|i: int|
        0 <= i < sc.len() && (#[trigger] sc[i]).contains_key(name) && sc[i][name] == ty && (
        forall|j: int| i < j < sc.len() ==> !(#[trigger] sc[j]).contains_key(name))
}

/// Whether a name is a variable's.
pub open spec fn is_variable(sc: Scopes, name: Seq<char>) -> bool {
    exists|i: int| 0 <= i < sc.len() && (#[trigger] sc[i]).contains_key(name)
}

/// The types of the fields of a struct.
pub open spec fn types_of(fields: Seq<ParamV>) -> Seq<Type> {
    Seq::new(fields.len(), |i: int| fields[i].ty)
}

/// The types of the payload of a variant.
pub open spec fn payload(t: Tables, name: Seq<char>) -> Seq<Type> {
    t.enums[t.variants[name].0 as int].variants[t.variants[name].1 as int].fields
}

/// Whether an expression has a type.
pub open spec fn has_type(t: Tables, sc: Scopes, e: ExprV, ty: Type) -> bool
    decreases e, 0nat,
{
    match e.kind {
        KindV::Int(_) => ty == Type::Int,
        KindV::Float(_) => ty == Type::Float,
        KindV::Bool(_) => ty == Type::Bool,
        KindV::Str(_) => ty == Type::Str,
        KindV::Var(name) => if is_variable(sc, name) {
            declared_as(sc, name, ty)
        } else {
            &&& t.variants.contains_key(name)
            &&& ty == Type::Enum(t.variants[name].0)
            &&& payload(t, name).len() == 0
        },
        KindV::Unary(UnOp::Neg, a) => number(ty) && has_type(t, sc, *a, ty),
        KindV::Unary(UnOp::Not, a) => ty == Type::Bool && has_type(t, sc, *a, Type::Bool),
        KindV::Binary(a, op, b) => exists|arg: Type| #[trigger]
            any_type(arg) && has_type(t, sc, *a, arg) && has_type(t, sc, *b, arg)
                && operates(op, arg, ty),
        KindV::Call(name, args) => if t.variants.contains_key(name) {
            builds(t, sc, name, args, ty)
        } else {
            calls(t, sc, name, args, ty)
        },
        KindV::MethodCall(r, name, args) => exists|id: u32|
            {
                &&& #[trigger] any_type(Type::Struct(id))
                &&& has_type(t, sc, *r, Type::Struct(id))
                &&& t.methods[id as int].contains_key(name)
                &&& all_have(t, sc, args, t.methods[id as int][name].params)
                &&& ty == t.methods[id as int][name].ret
            },
        KindV::ArrayLit(es) => exists|elem: Type|
            {
                &&& es.len() > 0
                &&& elem != Type::Unit && elem.nestable()
                &&& #[trigger] any_type(elem)
                &&& all_of(t, sc, es, elem)
                &&& Type::arrays_of(elem) == Some(ty)
            },
        KindV::Index(a, b) => has_type(t, sc, *b, Type::Int) && (exists|base: Type| #[trigger]
            any_type(base) && has_type(t, sc, *a, base) && gives(base, ty)),
        KindV::Field(a, name) => exists|id: u32| #[trigger]
            any_type(Type::Struct(id)) && has_type(t, sc, *a, Type::Struct(id)) && field_has(
                t.structs[id as int].fields,
                name,
                ty,
            ),
        KindV::EnumInit(eid, _, _) => ty == Type::Enum(eid),
    }
}

/// Whether indexing a value of type `base` gives one of type `ty`: a string gives
/// a string, an array its element.
pub open spec fn gives(base: Type, ty: Type) -> bool {
    (base == Type::Str && ty == Type::Str) || (base is Array && base.elem() == Some(ty))
}

/// Whether the first field of that name has that type.
pub open spec fn field_has(fields: Seq<ParamV>, name: Seq<char>, ty: Type) -> bool {
    exists|i: int|
        0 <= i < fields.len() && (#[trigger] fields[i]).name == name && fields[i].ty == ty && (
        forall|j: int| 0 <= j < i ==> (#[trigger] fields[j]).name != name)
}

/// Whether some expressions have these types, one each.
pub open spec fn all_have(t: Tables, sc: Scopes, es: Seq<ExprV>, types: Seq<Type>) -> bool
    decreases es, 0nat,
{
    &&& es.len() == types.len()
    &&& forall|i: int| 0 <= i < es.len() ==> has_type(t, sc, #[trigger] es[i], types[i])
}

/// Whether some expressions all have that type.
pub open spec fn all_of(t: Tables, sc: Scopes, es: Seq<ExprV>, ty: Type) -> bool
    decreases es, 0nat,
{
    forall|i: int| 0 <= i < es.len() ==> has_type(t, sc, #[trigger] es[i], ty)
}

/// Whether a variant takes these values as its payload.
pub open spec fn builds(t: Tables, sc: Scopes, name: Seq<char>, args: Seq<ExprV>, ty: Type) -> bool
    decreases args, 1nat,
{
    &&& t.variants.contains_key(name)
    &&& ty == Type::Enum(t.variants[name].0)
    &&& all_have(t, sc, args, payload(t, name))
}

/// Whether a value can be an argument behind the last parameter.
pub open spec fn passes(t: Tables, sc: Scopes, e: ExprV) -> bool
    decreases e, 1nat,
{
    exists|ty: Type| #[trigger] any_type(ty) && has_type(t, sc, e, ty) && ty != Type::Unit
}

/// Whether a function takes these arguments.
pub open spec fn accepts(t: Tables, sc: Scopes, sig: SigV, args: Seq<ExprV>) -> bool
    decreases args, 1nat,
{
    &&& sig.params.len() <= args.len()
    &&& sig.varargs || sig.params.len() == args.len()
    &&& forall|i: int|
        0 <= i < args.len() ==> if i < sig.params.len() {
            has_type(t, sc, #[trigger] args[i], sig.params[i])
        } else {
            passes(t, sc, args[i])
        }
}

/// Whether a call has a type: of a builtin, which shows, measures or changes its
/// argument, of a struct, which takes a value for each field, or of a function.
pub open spec fn calls(t: Tables, sc: Scopes, name: Seq<char>, args: Seq<ExprV>, ty: Type) -> bool
    decreases args, 2nat,
{
    if name == "print"@ {
        ty == Type::Unit && args.len() == 1 && shows(t, sc, args[0])
    } else if name == "str"@ {
        ty == Type::Str && args.len() == 1 && shows(t, sc, args[0])
    } else if name == "len"@ {
        ty == Type::Int && args.len() == 1 && (exists|arg: Type| #[trigger]
            any_type(arg) && has_type(t, sc, args[0], arg) && (arg == Type::Str || arg is Array))
    } else if name == "push"@ {
        ty == Type::Unit && args.len() == 2 && (exists|arg: Type| #[trigger]
            any_type(arg) && has_type(t, sc, args[0], arg)
                && (arg.elem() matches Some(elem) && has_type(
                t,
                sc,
                args[1],
                elem,
            )))
    } else if name == "pop"@ {
        args.len() == 1 && (exists|arg: Type| #[trigger]
            any_type(arg) && has_type(t, sc, args[0], arg) && arg.elem() == Some(ty))
    } else if name == "find"@ {
        ty == Type::Int && args.len() == 2 && has_type(t, sc, args[0], Type::Str) && has_type(
            t,
            sc,
            args[1],
            Type::Str,
        )
    } else if t.struct_ids.contains_key(name) {
        let id = t.struct_ids[name];
        ty == Type::Struct(id) && all_have(t, sc, args, types_of(t.structs[id as int].fields))
    } else {
        &&& t.functions.contains_key(name)
        &&& ty == t.functions[name].ret
        &&& accepts(t, sc, t.functions[name], args)
    }
}

/// Whether an expression has a value that can be shown.
pub open spec fn shows(t: Tables, sc: Scopes, e: ExprV) -> bool
    decreases e, 1nat,
{
    exists|ty: Type| #[trigger] any_type(ty) && has_type(t, sc, e, ty) && plain_value(ty)
}

// ----- the analysis follows the rules -----------------------------------------------------------
/// What is found for an expression is what the rules say.
spec fn agrees(t: Tables, sc: Scopes, e: ExprV) -> bool {
    forall|ty: Type| #[trigger]
        has_type(t, sc, e, ty) <==> typed(t, sc, e).1 == Ok::<Type, Fault>(ty)
}

pub proof fn lemma_lookup(sc: Scopes, name: Seq<char>, ty: Type)
    ensures
        is_variable(sc, name) <==> lookup(sc, name) is Some,
        declared_as(sc, name, ty) <==> lookup(sc, name) == Some(ty),
    decreases sc.len(),
{
    if sc.len() > 0 {
        let less = sc.drop_last();
        let last = sc.len() - 1;
        lemma_lookup(less, name, ty);
        if sc.last().contains_key(name) {
            assert(sc[last].contains_key(name));
        } else {
            if is_variable(less, name) {
                let i = choose|i: int| 0 <= i < less.len()
                    && (#[trigger] less[i]).contains_key(name);
                assert(sc[i].contains_key(name));
            }
            if is_variable(sc, name) {
                let i = choose|i: int| 0 <= i < sc.len() && (#[trigger] sc[i]).contains_key(name);
                assert(less[i].contains_key(name));
            }
            if declared_as(less, name, ty) {
                let i = choose|i: int|
                    0 <= i < less.len() && (#[trigger] less[i]).contains_key(name) && less[i][name]
                        == ty && (forall|j: int|
                        i < j < less.len() ==> !(#[trigger] less[j]).contains_key(name));
                assert(sc[i].contains_key(name));
                assert forall|j: int| i < j < sc.len() implies !(
                #[trigger] sc[j]).contains_key(name) by {
                    if j < last {
                        assert(!less[j].contains_key(name));
                    }
                }
            }
            if declared_as(sc, name, ty) {
                let i = choose|i: int|
                    0 <= i < sc.len() && (#[trigger] sc[i]).contains_key(name) && sc[i][name] == ty
                        && (forall|j: int|
                        i < j < sc.len() ==> !(#[trigger] sc[j]).contains_key(name));
                assert(less[i].contains_key(name));
                assert forall|j: int| i < j < less.len() implies !(
                #[trigger] less[j]).contains_key(name) by {
                    assert(!sc[j].contains_key(name));
                }
            }
        }
    }
}

pub proof fn lemma_fields(fields: Seq<ParamV>, name: Seq<char>, i: int, ty: Type)
    requires
        0 <= i <= fields.len(),
        forall|j: int| 0 <= j < i ==> (#[trigger] fields[j]).name != name,
    ensures
        field_has(fields, name, ty) <==> (crate::ast::field_from(fields, name, i)
            matches Some((k, found)) && found == ty),
    decreases fields.len() - i,
{
    if i < fields.len() && fields[i].name != name {
        lemma_fields(fields, name, i + 1, ty);
    }
}

proof fn lemma_typed(t: Tables, sc: Scopes, e: ExprV)
    ensures
        agrees(t, sc, e),
    decreases e, 5nat,
{
    assert forall|ty: Type| #[trigger] has_type(t, sc, e, ty) <==> typed(t, sc, e).1
        == Ok::<Type, Fault>(ty) by {
        match constructs(t, sc, e) {
            Some((eid, vid)) => {
                let fields = t.enums[eid as int].variants[vid as int].fields;
                match e.kind {
                    KindV::Call(name, args) => {
                        let w = Want::Payload { name, fields };
                        lemma_list(t, sc, args, w, fields, 0);
                        assert(payload(t, name) == fields);
                        assert(has_type(t, sc, e, ty) == builds(t, sc, name, args, ty));
                        assert(builds(t, sc, name, args, ty) <==> typed(t, sc, e).1 == Ok::<
                            Type,
                            Fault,
                        >(ty));
                    },
                    KindV::Var(name) => {
                        lemma_lookup(sc, name, ty);
                        assert(payload(t, name) == fields);
                        assert(has_type(t, sc, e, ty) <==> fields.len() == 0 && ty == Type::Enum(
                            eid,
                        ));
                        assert(typed(t, sc, e).1 == Ok::<Type, Fault>(ty) <==> fields.len() == 0
                            && ty == Type::Enum(eid));
                    },
                    _ => {},
                }
            },
            None => {
                lemma_kind(t, sc, e, ty);
                assert(typed(t, sc, e).1 == typed_kind(t, sc, e.kind, e.span).1);
            },
        }
    }
}

proof fn lemma_kind(t: Tables, sc: Scopes, e: ExprV, ty: Type)
    requires
        constructs(t, sc, e) is None,
    ensures
        has_type(t, sc, e, ty) <==> typed_kind(t, sc, e.kind, e.span).1 == Ok::<Type, Fault>(ty),
    decreases e, 4nat,
{
    match e.kind {
        KindV::Var(name) => {
            lemma_lookup(sc, name, ty);
            assert(has_type(t, sc, e, ty) <==> lookup(sc, name) == Some(ty));
            assert(has_type(t, sc, e, ty) <==> typed_kind(t, sc, e.kind, e.span).1
                == Ok::<Type, Fault>(ty));
        },
        KindV::Unary(op, a) => {
            lemma_typed(t, sc, *a);
            if op == UnOp::Neg {
                assert(has_type(t, sc, e, ty) <==> number(ty) && has_type(t, sc, *a, ty));
            } else {
                assert(has_type(t, sc, e, ty) <==> ty == Type::Bool && has_type(
                    t,
                    sc,
                    *a,
                    Type::Bool,
                ));
            }
            assert(has_type(t, sc, e, ty) <==> typed_kind(t, sc, e.kind, e.span).1
                == Ok::<Type, Fault>(ty));
        },
        KindV::Binary(a, op, b) => {
            lemma_typed(t, sc, *a);
            lemma_typed(t, sc, *b);
            if let Ok(arg) = typed(t, sc, *a).1 {
                assert(any_type(arg) && has_type(t, sc, *a, arg));
                assert(has_type(t, sc, *b, arg) <==> typed(t, sc, *b).1 == Ok::<Type, Fault>(arg));
            }
            if has_type(t, sc, e, ty) {
                let arg = choose|arg: Type| #[trigger]
                    any_type(arg) && has_type(t, sc, *a, arg) && has_type(t, sc, *b, arg)
                        && operates(op, arg, ty);
                assert(has_type(t, sc, *a, arg) && has_type(t, sc, *b, arg));
            }
            assert(has_type(t, sc, e, ty) <==> typed_kind(t, sc, e.kind, e.span).1
                == Ok::<Type, Fault>(ty));
        },
        KindV::Call(name, args) => {
            lemma_call(t, sc, name, args, e.span, ty);
            assert(has_type(t, sc, e, ty) == calls(t, sc, name, args, ty));
            assert(has_type(t, sc, e, ty) <==> typed_kind(t, sc, e.kind, e.span).1
                == Ok::<Type, Fault>(ty));
        },
        KindV::MethodCall(r, name, args) => {
            lemma_typed(t, sc, *r);
            if let Ok(rt) = typed(t, sc, *r).1 {
                assert(any_type(rt) && has_type(t, sc, *r, rt));
                if let Type::Struct(id) = rt {
                    if t.methods[id as int].contains_key(name) {
                        let sig = t.methods[id as int][name];
                        lemma_list(t, sc, args, Want::Method { name, sig }, sig.params, 0);
                    }
                }
            }
            if has_type(t, sc, e, ty) {
                let id = choose|id: u32|
                    {
                        &&& #[trigger] any_type(Type::Struct(id))
                        &&& has_type(t, sc, *r, Type::Struct(id))
                        &&& t.methods[id as int].contains_key(name)
                        &&& all_have(t, sc, args, t.methods[id as int][name].params)
                        &&& ty == t.methods[id as int][name].ret
                    };
                assert(has_type(t, sc, *r, Type::Struct(id)));
                assert(all_have(t, sc, args, t.methods[id as int][name].params));
            }
            assert(has_type(t, sc, e, ty) <==> typed_kind(t, sc, e.kind, e.span).1
                == Ok::<Type, Fault>(ty));
        },
        KindV::ArrayLit(es) => {
            lemma_array(t, sc, es, e.span, ty);
            assert(has_type(t, sc, e, ty) <==> typed_kind(t, sc, e.kind, e.span).1
                == Ok::<Type, Fault>(ty));
        },
        KindV::Index(a, b) => {
            lemma_typed(t, sc, *a);
            lemma_typed(t, sc, *b);
            assert(has_type(t, sc, *b, Type::Int) <==> typed(t, sc, *b).1 == Ok::<Type, Fault>(
                Type::Int,
            ));
            if let Ok(base) = typed(t, sc, *a).1 {
                assert(any_type(base) && has_type(t, sc, *a, base));
            }
            if has_type(t, sc, e, ty) {
                let base = choose|base: Type| #[trigger]
                    any_type(base) && has_type(t, sc, *a, base) && gives(base, ty);
                assert(has_type(t, sc, *a, base));
            }
            assert(has_type(t, sc, e, ty) <==> typed_kind(t, sc, e.kind, e.span).1
                == Ok::<Type, Fault>(ty));
        },
        KindV::Field(a, name) => {
            lemma_typed(t, sc, *a);
            if let Ok(base) = typed(t, sc, *a).1 {
                assert(any_type(base) && has_type(t, sc, *a, base));
                if let Type::Struct(id) = base {
                    lemma_fields(t.structs[id as int].fields, name, 0, ty);
                    assert(any_type(Type::Struct(id)));
                    if field_has(t.structs[id as int].fields, name, ty) {
                        assert(has_type(t, sc, e, ty));
                    }
                }
            }
            if has_type(t, sc, e, ty) {
                let id = choose|id: u32| #[trigger]
                    any_type(Type::Struct(id)) && has_type(t, sc, *a, Type::Struct(id))
                        && field_has(t.structs[id as int].fields, name, ty);
                assert(has_type(t, sc, *a, Type::Struct(id)));
                lemma_fields(t.structs[id as int].fields, name, 0, ty);
                assert(typed(t, sc, *a).1 == Ok::<Type, Fault>(Type::Struct(id)));
                assert(field_has(t.structs[id as int].fields, name, ty));
                assert(t.structs[id as int].field_of(name) is Some);
            }
            assert(has_type(t, sc, e, ty) <==> typed_kind(t, sc, e.kind, e.span).1
                == Ok::<Type, Fault>(ty));
        },
        _ => {},
    }
}

/// What is asked of the argument at position `i`: a type, or none in particular.
spec fn wanted(w: Want, i: int, at: Type) -> bool {
    match w {
        Want::Payload { name, fields } => at == fields[i],
        Want::Find => at == Type::Str,
        Want::Fields { def } => at == def.fields[i].ty,
        Want::Params { name, sig, span } => if i < sig.params.len() {
            at == sig.params[i]
        } else {
            at != Type::Unit
        },
        Want::Method { name, sig } => at == sig.params[i],
        Want::Elems { first } => at == first,
    }
}

/// Whether the arguments from position `i` on are what is asked for.
spec fn suits(t: Tables, sc: Scopes, es: Seq<ExprV>, w: Want, i: int) -> bool {
    forall|k: int|
        i <= k < es.len() ==> exists|at: Type| #[trigger]
            any_type(at) && has_type(t, sc, #[trigger] es[k], at) && wanted(w, k, at)
}

proof fn lemma_wants(t: Tables, sc: Scopes, es: Seq<ExprV>, w: Want, i: int)
    requires
        0 <= i,
    ensures
        typed_list(t, sc, es, w, i).1 is Ok <==> suits(t, sc, es, w, i),
    decreases es, es.len() - i,
{
    if i < es.len() {
        lemma_typed(t, sc, es[i]);
        lemma_wants(t, sc, es, w, i + 1);
        if let Ok(at) = typed(t, sc, es[i]).1 {
            assert(any_type(at) && has_type(t, sc, es[i], at));
            if suits(t, sc, es, w, i + 1) && wanted(w, i, at) {
                assert forall|k: int| i <= k < es.len() implies exists|at: Type| #[trigger]
                    any_type(at) && has_type(t, sc, #[trigger] es[k], at) && wanted(w, k, at) by {
                    if k == i {
                        assert(any_type(at) && has_type(t, sc, es[k], at) && wanted(w, k, at));
                    }
                }
            }
            if suits(t, sc, es, w, i) {
                let found = choose|x: Type| #[trigger] any_type(x) && has_type(t, sc, es[i], x)
                    && wanted(w, i, x);
                assert(found == at);
            }
        } else if suits(t, sc, es, w, i) {
            let found = choose|x: Type| #[trigger] any_type(x) && has_type(t, sc, es[i], x)
                && wanted(w, i, x);
            assert(has_type(t, sc, es[i], found));
        }
    }
}

/// The same where each argument is asked for a type of its own.
proof fn lemma_list(
    t: Tables,
    sc: Scopes,
    es: Seq<ExprV>,
    w: Want,
    types: Seq<Type>,
    i: int,
)
    requires
        i == 0,
        es.len() == types.len() ==> forall|k: int, at: Type|
            0 <= k < es.len() ==> (#[trigger] wanted(w, k, at) <==> at == types[k]),
    ensures
        es.len() == types.len() ==> (typed_list(t, sc, es, w, 0).1 is Ok <==> all_have(
            t,
            sc,
            es,
            types,
        )),
    decreases es, es.len() + 1,
{
    lemma_wants(t, sc, es, w, 0);
    if es.len() == types.len() {
        if suits(t, sc, es, w, 0) {
            assert forall|k: int| 0 <= k < es.len() implies has_type(
                t,
                sc,
                #[trigger] es[k],
                types[k],
            ) by {
                let at = choose|x: Type| #[trigger] any_type(x) && has_type(t, sc, es[k], x)
                    && wanted(w, k, x);
                assert(wanted(w, k, at));
            }
        }
        if all_have(t, sc, es, types) {
            assert forall|k: int| 0 <= k < es.len() implies exists|at: Type| #[trigger]
                any_type(at) && has_type(t, sc, #[trigger] es[k], at) && wanted(w, k, at) by {
                assert(any_type(types[k]) && has_type(t, sc, es[k], types[k])
                    && wanted(w, k, types[k]));
            }
        }
    }
}

proof fn lemma_array(t: Tables, sc: Scopes, es: Seq<ExprV>, span: Span, ty: Type)
    ensures
        (exists|elem: Type|
            {
                &&& es.len() > 0
                &&& elem != Type::Unit && elem.nestable()
                &&& #[trigger] any_type(elem)
                &&& all_of(t, sc, es, elem)
                &&& Type::arrays_of(elem) == Some(ty)
            }) <==> typed_array(t, sc, es, span).1 == Ok::<Type, Fault>(ty),
    decreases es, es.len() + 2,
{
    if es.len() > 0 {
        lemma_typed(t, sc, es[0]);
        if let Ok(first) = typed(t, sc, es[0]).1 {
            let w = Want::Elems { first };
            lemma_wants(t, sc, es, w, 1);
            assert(any_type(first) && has_type(t, sc, es[0], first));
            if suits(t, sc, es, w, 1) {
                assert forall|k: int| 0 <= k < es.len() implies has_type(
                    t,
                    sc,
                    #[trigger] es[k],
                    first,
                ) by {
                    if k > 0 {
                        let at = choose|x: Type| #[trigger] any_type(x) && has_type(t, sc, es[k], x)
                            && wanted(w, k, x);
                        assert(at == first);
                    }
                }
                assert(all_of(t, sc, es, first));
            }
            assert forall|elem: Type| #[trigger]
                any_type(elem) && all_of(t, sc, es, elem) implies elem == first
                && suits(t, sc, es, w, 1) by {
                assert(has_type(t, sc, es[0], elem));
                assert forall|k: int| 1 <= k < es.len() implies exists|at: Type| #[trigger]
                    any_type(at) && has_type(t, sc, #[trigger] es[k], at) && wanted(w, k, at) by {
                    assert(any_type(elem) && has_type(t, sc, es[k], elem) && wanted(w, k, elem));
                }
            }
        } else {
            assert forall|elem: Type| #[trigger] any_type(elem) implies !all_of(
                t,
                sc,
                es,
                elem,
            ) by {
                if all_of(t, sc, es, elem) {
                    assert(has_type(t, sc, es[0], elem));
                }
            }
        }
    }
}

proof fn lemma_call(
    t: Tables,
    sc: Scopes,
    name: Seq<char>,
    args: Seq<ExprV>,
    span: Span,
    ty: Type,
)
    ensures
        calls(t, sc, name, args, ty) <==> typed_call(t, sc, name, args, span).1
            == Ok::<Type, Fault>(ty),
    decreases args, args.len() + 3,
{
    if builtin(name) {
        lemma_builtin(t, sc, name, args, span, ty);
    } else if t.struct_ids.contains_key(name) {
        let def = t.structs[t.struct_ids[name] as int];
        lemma_list(t, sc, args, Want::Fields { def }, types_of(def.fields), 0);
    } else if t.functions.contains_key(name) {
        let sig = t.functions[name];
        let w = Want::Params { name, sig, span };
        lemma_wants(t, sc, args, w, 0);
        if suits(t, sc, args, w, 0) {
            assert forall|i: int| 0 <= i < args.len() implies if i < sig.params.len() {
                has_type(t, sc, #[trigger] args[i], sig.params[i])
            } else {
                passes(t, sc, args[i])
            } by {
                let at = choose|x: Type| #[trigger] any_type(x) && has_type(t, sc, args[i], x)
                    && wanted(w, i, x);
                assert(any_type(at) && has_type(t, sc, args[i], at));
            }
        }
        if accepts(t, sc, sig, args) {
            assert forall|k: int| 0 <= k < args.len() implies exists|at: Type| #[trigger]
                any_type(at) && has_type(t, sc, #[trigger] args[k], at) && wanted(w, k, at) by {
                if k < sig.params.len() {
                    assert(any_type(sig.params[k]) && has_type(t, sc, args[k], sig.params[k])
                        && wanted(
                        w,
                        k,
                        sig.params[k],
                    ));
                } else {
                    assert(passes(t, sc, args[k]));
                    let at = choose|x: Type| #[trigger] any_type(x) && has_type(t, sc, args[k], x)
                        && x != Type::Unit;
                    assert(any_type(at) && has_type(t, sc, args[k], at) && wanted(w, k, at));
                }
            }
        }
    }
}

proof fn lemma_names_differ()
    ensures
        "print"@ != "str"@,
        "print"@ != "len"@,
        "print"@ != "push"@,
        "print"@ != "pop"@,
        "print"@ != "find"@,
        "str"@ != "len"@,
        "str"@ != "push"@,
        "str"@ != "pop"@,
        "str"@ != "find"@,
        "len"@ != "push"@,
        "len"@ != "pop"@,
        "len"@ != "find"@,
        "push"@ != "pop"@,
        "push"@ != "find"@,
        "pop"@ != "find"@,
{
    reveal_strlit("print");
    reveal_strlit("str");
    reveal_strlit("len");
    reveal_strlit("push");
    reveal_strlit("pop");
    reveal_strlit("find");
    assert("print"@.len() == 5 && "push"@.len() == 4 && "find"@.len() == 4);
    assert("str"@.len() == 3 && "len"@.len() == 3 && "pop"@.len() == 3);
    assert("str"@[0] == 's' && "len"@[0] == 'l' && "pop"@[0] == 'p');
    assert("push"@[0] == 'p' && "find"@[0] == 'f');
}

proof fn lemma_builtin(
    t: Tables,
    sc: Scopes,
    name: Seq<char>,
    args: Seq<ExprV>,
    span: Span,
    ty: Type,
)
    requires
        builtin(name),
    ensures
        calls(t, sc, name, args, ty) <==> typed_call(t, sc, name, args, span).1
            == Ok::<Type, Fault>(ty),
    decreases args, args.len() + 2,
{
    lemma_names_differ();
    if name == "find"@ {
        if args.len() == 2 {
            lemma_list(t, sc, args, Want::Find, seq![Type::Str, Type::Str], 0);
            if all_have(t, sc, args, seq![Type::Str, Type::Str]) {
                assert(has_type(t, sc, args[0], seq![Type::Str, Type::Str][0]));
                assert(has_type(t, sc, args[1], seq![Type::Str, Type::Str][1]));
            }
        }
    } else if args.len() >= 1 {
        let e = args[0];
        lemma_typed(t, sc, e);
        if let Ok(at) = typed(t, sc, e).1 {
            assert(any_type(at) && has_type(t, sc, e, at));
            if name == "push"@ && args.len() == 2 {
                lemma_typed(t, sc, args[1]);
                if let Some(elem) = at.elem() {
                    assert(has_type(t, sc, args[1], elem) <==> typed(t, sc, args[1]).1
                        == Ok::<Type, Fault>(elem));
                }
            }
        }
        if calls(t, sc, name, args, ty) {
            if name == "print"@ || name == "str"@ {
                assert(shows(t, sc, e));
                let arg = choose|x: Type| #[trigger]
                    any_type(x) && has_type(t, sc, e, x) && plain_value(x);
                assert(has_type(t, sc, e, arg));
            } else if name == "len"@ {
                let arg = choose|x: Type| #[trigger]
                    any_type(x) && has_type(t, sc, e, x) && (x == Type::Str || x is Array);
                assert(has_type(t, sc, e, arg));
            } else if name == "push"@ {
                let arg = choose|x: Type| #[trigger]
                    any_type(x) && has_type(t, sc, e, x) && (x.elem() matches Some(elem)
                        && has_type(t, sc, args[1], elem));
                assert(has_type(t, sc, e, arg) && has_type(t, sc, args[1], arg.elem()->0));
            } else {
                let arg = choose|x: Type| #[trigger]
                    any_type(x) && has_type(t, sc, e, x) && x.elem() == Some(ty);
                assert(has_type(t, sc, e, arg));
            }
        }
    }
}

/// The analysis and the rules of the language agree on every expression: it is
/// accepted just where a rule gives it a type, and that is the type found.
pub proof fn law_expressions_follow_the_rules(t: Tables, sc: Scopes, e: ExprV, ty: Type)
    ensures
        has_type(t, sc, e, ty) <==> typed(t, sc, e).1 == Ok::<Type, Fault>(ty),
{
    lemma_typed(t, sc, e);
}

/// Numbers can be calculated with and compared: two operands of one number type
/// make each of `+ - * / %` an expression of that type, and each of
/// `== != < <= > >=` one of type bool. No such expression is refused.
pub proof fn law_numbers_take_every_operator(
    t: Tables,
    sc: Scopes,
    a: ExprV,
    b: ExprV,
    ty: Type,
    op: BinOp,
    span: Span,
)
    requires
        ty == Type::Int || ty == Type::Float,
        typed(t, sc, a).1 == Ok::<Type, Fault>(ty),
        typed(t, sc, b).1 == Ok::<Type, Fault>(ty),
        op != BinOp::And && op != BinOp::Or,
    ensures
        ({
            let e = ExprV { kind: KindV::Binary(Box::new(a), op, Box::new(b)), span, ty: None };
            let r = typed(t, sc, e).1;
            if op == BinOp::Add || op == BinOp::Sub || op == BinOp::Mul || op == BinOp::Div || op
                == BinOp::Rem {
                r == Ok::<Type, Fault>(ty)
            } else {
                r == Ok::<Type, Fault>(Type::Bool)
            }
        }),
{
    let e = ExprV { kind: KindV::Binary(Box::new(a), op, Box::new(b)), span, ty: None };
    lemma_typed(t, sc, a);
    lemma_typed(t, sc, b);
    lemma_typed(t, sc, e);
    assert(any_type(ty) && has_type(t, sc, a, ty) && has_type(t, sc, b, ty));
    assert(operates(op, ty, ty) || operates(op, ty, Type::Bool));
    assert(has_type(t, sc, e, ty) || has_type(t, sc, e, Type::Bool));
}

} // verus!
