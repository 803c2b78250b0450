//! The typing rules of Xia: what type each expression has, what each
//! statement declares, and which fault a program that breaks a rule is
//! refused with.
use vstd::prelude::*;
use crate::ast::{
    ArmV, BinOp, EnumV, ExprV, ExternV, FunctionV, KindV, ParamV, PatternV, ProgramV, StmtV,
    StructV, Type, UnOp,
};
use crate::diag::{Fault, Span};
use crate::grammar::checked_array;
use crate::text::dec;

verus! {

// ----- what names stand for -----------------------------------------------------------
/// A signature: parameter types, whether more arguments may follow, result.
#[verifier::ext_equal]
pub struct SigV {
    pub params: Seq<Type>,
    pub varargs: bool,
    pub ret: Type,
}

/// Everything a program declares.
#[verifier::ext_equal]
pub struct Tables {
    pub functions: Map<Seq<char>, SigV>,
    /// The methods of each struct, by its id; their `params` exclude the
    /// receiver.
    pub methods: Seq<Map<Seq<char>, SigV>>,
    pub structs: Seq<StructV>,
    pub struct_ids: Map<Seq<char>, u32>,
    pub enums: Seq<EnumV>,
    pub enum_ids: Map<Seq<char>, u32>,
    /// The enum and the position in it of each variant.
    pub variants: Map<Seq<char>, (u32, u32)>,
}

/// A stack of scopes, the innermost last.
pub type Scopes = Seq<Map<Seq<char>, Type>>;

/// What changes from statement to statement.
#[verifier::ext_equal]
pub struct Env {
    pub scopes: Scopes,
    /// Whether a loop encloses the statement.
    pub in_loop: bool,
}

/// The type of a variable: its innermost declaration.
pub open spec fn lookup(scopes: Scopes, name: Seq<char>) -> Option<Type>
    decreases scopes.len(),
{
    if scopes.len() == 0 {
        None
    } else if scopes.last().contains_key(name) {
        Some(scopes.last()[name])
    } else {
        lookup(scopes.drop_last(), name)
    }
}

/// Whether the innermost scope has no such name yet.
pub open spec fn is_new(scopes: Scopes, name: Seq<char>) -> bool {
    !scopes.last().contains_key(name)
}

/// The scopes with a declaration in the innermost one.
pub open spec fn declare(scopes: Scopes, name: Seq<char>, ty: Type) -> Scopes {
    scopes.drop_last().push(scopes.last().insert(name, ty))
}

/// The scopes with an empty one inside.
pub open spec fn pushed(scopes: Scopes) -> Scopes {
    scopes.push(Map::empty())
}

/// A type as the program names it.
pub open spec fn named(t: Tables, ty: Type) -> Seq<char>
    decreases (if let Type::Array(_, dims) = ty {
        dims as nat
    } else {
        0
    }),
{
    match ty {
        Type::Struct(id) => t.structs[id as int].name,
        Type::Enum(id) => t.enums[id as int].name,
        Type::Array(base, dims) => if dims == 0 {
            Seq::empty()
        } else {
            "["@ + named(t, ty.elem()->0) + "]"@
        },
        other => other.shown(),
    }
}

pub open spec fn fault(span: Span, message: Seq<char>) -> Fault {
    Fault { span, message }
}

// ----- expressions ----------------------------------------------------------------------
/// What is asked of a list of arguments, and by whom.
pub enum Want {
    /// The payload of a variant.
    Payload { name: Seq<char>, fields: Seq<Type> },
    /// Strings, for `find`.
    Find,
    /// The fields of a struct.
    Fields { def: StructV },
    /// The parameters of a function, called at `span`.
    Params { name: Seq<char>, sig: SigV, span: Span },
    /// The parameters of a method.
    Method { name: Seq<char>, sig: SigV },
    /// The type of the first element of an array.
    Elems { first: Type },
}

/// The fault of the argument at position `i`, which has type `at`.
pub open spec fn refusal(t: Tables, w: Want, i: int, at: Type, span: Span) -> Option<Fault> {
    match w {
        Want::Payload { name, fields } => if at != fields[i] {
            Some(
                fault(
                    span,
                    "payload of `"@ + name + "`: expected "@ + named(t, fields[i]) + ", found "@
                        + named(t, at),
                ),
            )
        } else {
            None
        },
        Want::Find => if at != Type::Str {
            Some(fault(span, "find requires str arguments, found "@ + at.shown()))
        } else {
            None
        },
        Want::Fields { def } => if at != def.fields[i].ty {
            Some(
                fault(
                    span,
                    "field `"@ + def.fields[i].name + "` of `"@ + def.name + "` is "@ + named(
                        t,
                        def.fields[i].ty,
                    ) + ", found "@ + named(t, at),
                ),
            )
        } else {
            None
        },
        Want::Params { name, sig, span } => if i < sig.params.len() {
            if at != sig.params[i] {
                Some(
                    fault(
                        span,
                        "argument "@ + dec((i + 1) as nat) + " of `"@ + name + "`: expected "@
                            + sig.params[i].shown() + ", found "@ + at.shown(),
                    ),
                )
            } else {
                None
            }
        } else if at == Type::Unit {
            Some(fault(span, "cannot pass a unit value as a vararg"@))
        } else {
            None
        },
        Want::Method { name, sig } => if at != sig.params[i] {
            Some(
                fault(
                    span,
                    "argument "@ + dec((i + 1) as nat) + " of `"@ + name + "`: expected "@ + named(
                        t,
                        sig.params[i],
                    ) + ", found "@ + named(t, at),
                ),
            )
        } else {
            None
        },
        Want::Elems { first } => if at != first {
            Some(
                fault(
                    span,
                    "array elements must all have the same type: expected "@ + first.shown()
                        + ", found "@ + at.shown(),
                ),
            )
        } else {
            None
        },
    }
}

/// Whether a type has no printable form.
pub open spec fn opaque(ty: Type) -> bool {
    ty == Type::Unit || ty is Array || ty is Struct || ty is Enum
}

/// The type of a unary operation, or what is wrong with it.
pub open spec fn unary_type(op: UnOp, ty: Type) -> Result<Type, Seq<char>> {
    match op {
        UnOp::Neg => if ty == Type::Int || ty == Type::Float {
            Ok(ty)
        } else {
            Err("cannot negate a value of type "@ + ty.shown())
        },
        UnOp::Not => if ty == Type::Bool {
            Ok(Type::Bool)
        } else {
            Err("`not` requires bool, found "@ + ty.shown())
        },
    }
}

/// The type of a binary operation, or what is wrong with it.
pub open spec fn binary_type(t: Tables, op: BinOp, lt: Type, rt: Type) -> Result<Type, Seq<char>> {
    if lt != rt {
        Err("operand type mismatch: "@ + lt.shown() + " vs "@ + rt.shown())
    } else {
        let number = lt == Type::Int || lt == Type::Float;
        match op {
            BinOp::Add | BinOp::Sub | BinOp::Mul | BinOp::Div | BinOp::Rem => if number || (op
                == BinOp::Add && lt == Type::Str) {
                Ok(lt)
            } else {
                Err("arithmetic requires int or float, found "@ + lt.shown())
            },
            BinOp::Eq | BinOp::Ne => if opaque(lt) {
                Err("cannot compare values of type "@ + named(t, lt))
            } else {
                Ok(Type::Bool)
            },
            BinOp::Lt | BinOp::Le | BinOp::Gt | BinOp::Ge => if number {
                Ok(Type::Bool)
            } else {
                Err("ordering comparison requires int or float, found "@ + lt.shown())
            },
            BinOp::And | BinOp::Or => if lt == Type::Bool {
                Ok(Type::Bool)
            } else {
                Err("`and`/`or` require bool, found "@ + lt.shown())
            },
        }
    }
}

/// Whether a name is a function that the compiler knows.
pub open spec fn builtin(name: Seq<char>) -> bool {
    name == "print"@ || name == "str"@ || name == "len"@ || name == "push"@ || name == "pop"@
        || name == "find"@
}

/// How many arguments a builtin takes.
pub open spec fn builtin_arity(name: Seq<char>) -> nat {
    if name == "push"@ || name == "find"@ {
        2
    } else {
        1
    }
}

/// What a builtin says of a wrong number of arguments.
pub open spec fn builtin_count(name: Seq<char>, n: nat) -> Seq<char> {
    if builtin_arity(name) == 2 {
        name + " takes exactly 2 arguments, got "@ + dec(n)
    } else {
        name + " takes exactly 1 argument, got "@ + dec(n)
    }
}

/// The type of a builtin of one argument, or what is wrong with the argument.
pub open spec fn builtin_type(t: Tables, name: Seq<char>, at: Type) -> Result<Type, Seq<char>> {
    if name == "print"@ {
        if opaque(at) {
            Err("cannot print a value of type "@ + named(t, at))
        } else {
            Ok(Type::Unit)
        }
    } else if name == "str"@ {
        if opaque(at) {
            Err("cannot convert a value of type "@ + named(t, at) + " to str"@)
        } else {
            Ok(Type::Str)
        }
    } else if name == "len"@ {
        if at != Type::Str && !(at is Array) {
            Err("len requires a str or array, found "@ + at.shown())
        } else {
            Ok(Type::Int)
        }
    } else {
        match at.elem() {
            Some(elem) => Ok(elem),
            None => Err("pop requires an array, found "@ + at.shown()),
        }
    }
}

/// A tree with another shape.
pub open spec fn reshaped(e: ExprV, kind: KindV) -> ExprV {
    ExprV { kind, span: e.span, ty: e.ty }
}

/// The variant that an expression constructs: a call of its name, or its bare
/// name where no variable has it.
pub open spec fn constructs(t: Tables, scopes: Scopes, e: ExprV) -> Option<(u32, u32)> {
    match e.kind {
        KindV::Call(name, _) => if t.variants.contains_key(name) {
            Some(t.variants[name])
        } else {
            None
        },
        KindV::Var(name) => if lookup(scopes, name) is None && t.variants.contains_key(name) {
            Some(t.variants[name])
        } else {
            None
        },
        _ => None,
    }
}

/// The name and the arguments of a constructor call.
pub open spec fn call_of(e: ExprV) -> (Seq<char>, Seq<ExprV>) {
    match e.kind {
        KindV::Call(name, args) => (name, args),
        KindV::Var(name) => (name, Seq::empty()),
        _ => (Seq::empty(), Seq::empty()),
    }
}

/// The call without the arguments that were taken out of it.
pub open spec fn emptied(e: ExprV) -> ExprV {
    match e.kind {
        KindV::Call(name, _) => reshaped(e, KindV::Call(name, Seq::empty())),
        _ => e,
    }
}

/// An expression after its check, and its type or the first fault in it.
/// A checked expression carries its type; constructors have become
/// `EnumInit`.
pub open spec fn typed(t: Tables, sc: Scopes, e: ExprV) -> (ExprV, Result<Type, Fault>)
    decreases e, 0nat,
{
    match constructs(t, sc, e) {
        Some((eid, vid)) => {
            let fields = t.enums[eid as int].variants[vid as int].fields;
            let name = call_of(e).0;
            let args = match e.kind {
                KindV::Call(_, args) => args,
                _ => Seq::empty(),
            };
            if args.len() != fields.len() {
                (
                    emptied(e),
                    Err(
                        fault(
                            e.span,
                            "variant `"@ + name + "` takes "@ + dec(fields.len())
                                + " payload value(s), got "@ + dec(args.len()),
                        ),
                    ),
                )
            } else {
                let (args1, r) = match e.kind {
                    KindV::Call(_, args) => typed_list(
                        t,
                        sc,
                        args,
                        Want::Payload { name, fields },
                        0,
                    ),
                    _ => (Seq::empty(), Ok(())),
                };
                match r {
                    Err(f) => (emptied(e), Err(f)),
                    Ok(_) => (
                        ExprV {
                            kind: KindV::EnumInit(eid, vid, args1),
                            span: e.span,
                            ty: Some(Type::Enum(eid)),
                        },
                        Ok(Type::Enum(eid)),
                    ),
                }
            }
        },
        None => {
            let (kind, r) = typed_kind(t, sc, e.kind, e.span);
            match r {
                Ok(ty) => (ExprV { kind, span: e.span, ty: Some(ty) }, Ok(ty)),
                Err(f) => (reshaped(e, kind), Err(f)),
            }
        },
    }
}

/// The same of the shape of an expression that constructs no variant.
pub open spec fn typed_kind(t: Tables, sc: Scopes, k: KindV, span: Span) -> (
    KindV,
    Result<Type, Fault>,
)
    decreases k, 3nat,
{
    match k {
        KindV::Int(_) => (k, Ok(Type::Int)),
        KindV::Float(_) => (k, Ok(Type::Float)),
        KindV::Bool(_) => (k, Ok(Type::Bool)),
        KindV::Str(_) => (k, Ok(Type::Str)),
        KindV::Var(name) => (
            k,
            match lookup(sc, name) {
                Some(ty) => Ok(ty),
                None => Err(fault(span, "undefined variable `"@ + name + "`"@)),
            },
        ),
        KindV::Unary(op, a) => {
            let (a1, r) = typed(t, sc, *a);
            (
                KindV::Unary(op, Box::new(a1)),
                match r {
                    Err(f) => Err(f),
                    Ok(ty) => match unary_type(op, ty) {
                        Ok(ty) => Ok(ty),
                        Err(m) => Err(fault(span, m)),
                    },
                },
            )
        },
        KindV::Binary(a, op, b) => {
            let (a1, ra) = typed(t, sc, *a);
            match ra {
                Err(f) => (KindV::Binary(Box::new(a1), op, b), Err(f)),
                Ok(lt) => {
                    let (b1, rb) = typed(t, sc, *b);
                    (
                        KindV::Binary(Box::new(a1), op, Box::new(b1)),
                        match rb {
                            Err(f) => Err(f),
                            Ok(rt) => match binary_type(t, op, lt, rt) {
                                Ok(ty) => Ok(ty),
                                Err(m) => Err(fault(span, m)),
                            },
                        },
                    )
                },
            }
        },
        KindV::Call(name, args) => {
            let (args1, r) = typed_call(t, sc, name, args, span);
            (KindV::Call(name, args1), r)
        },
        KindV::MethodCall(recv, name, args) => {
            let (recv1, r) = typed(t, sc, *recv);
            match r {
                Err(f) => (KindV::MethodCall(Box::new(recv1), name, args), Err(f)),
                Ok(rt) => {
                    let (args1, r1) = typed_method(t, sc, rt, recv1.span, name, args, span);
                    (KindV::MethodCall(Box::new(recv1), name, args1), r1)
                },
            }
        },
        KindV::ArrayLit(es) => {
            let (es1, r) = typed_array(t, sc, es, span);
            (KindV::ArrayLit(es1), r)
        },
        KindV::Index(a, b) => {
            let (a1, ra) = typed(t, sc, *a);
            match ra {
                Err(f) => (KindV::Index(Box::new(a1), b), Err(f)),
                Ok(base) => if base == Type::Str || base is Array {
                    let (b1, rb) = typed(t, sc, *b);
                    (
                        KindV::Index(Box::new(a1), Box::new(b1)),
                        match rb {
                            Err(f) => Err(f),
                            Ok(it) => if it == Type::Int {
                                Ok(
                                    if base == Type::Str {
                                        Type::Str
                                    } else {
                                        base.elem()->0
                                    },
                                )
                            } else {
                                Err(fault(span, "index must be int, found "@ + it.shown()))
                            },
                        },
                    )
                } else {
                    (
                        KindV::Index(Box::new(a1), b),
                        Err(fault(span, "cannot index a value of type "@ + base.shown())),
                    )
                },
            }
        },
        KindV::Field(a, name) => {
            let (a1, r) = typed(t, sc, *a);
            (
                KindV::Field(Box::new(a1), name),
                match r {
                    Err(f) => Err(f),
                    Ok(bt) => match bt {
                        Type::Struct(id) => match t.structs[id as int].field_of(name) {
                            Some((_, ty)) => Ok(ty),
                            None => Err(
                                fault(
                                    span,
                                    "`"@ + t.structs[id as int].name + "` has no field `"@ + name
                                        + "`"@,
                                ),
                            ),
                        },
                        _ => Err(fault(span, "type "@ + named(t, bt) + " has no fields"@)),
                    },
                },
            )
        },
        KindV::EnumInit(eid, _, _) => (k, Ok(Type::Enum(eid))),
    }
}

/// The arguments of a call, and its type.
pub open spec fn typed_call(
    t: Tables,
    sc: Scopes,
    name: Seq<char>,
    args: Seq<ExprV>,
    span: Span,
) -> (Seq<ExprV>, Result<Type, Fault>)
    decreases args, args.len() + 2,
{
    if builtin(name) {
        if args.len() != builtin_arity(name) {
            (args, Err(fault(span, builtin_count(name, args.len()))))
        } else if name == "find"@ {
            let (args1, r) = typed_list(t, sc, args, Want::Find, 0);
            (
                args1,
                match r {
                    Err(f) => Err(f),
                    Ok(_) => Ok(Type::Int),
                },
            )
        } else {
            let (first, r) = typed(t, sc, args[0]);
            let args1 = args.update(0, first);
            match r {
                Err(f) => (args1, Err(f)),
                Ok(at) => if name == "push"@ {
                    match at.elem() {
                        None => (
                            args1,
                            Err(fault(span, "push requires an array, found "@ + at.shown())),
                        ),
                        Some(elem) => {
                            let (second, r2) = typed(t, sc, args[1]);
                            (
                                args1.update(1, second),
                                match r2 {
                                    Err(f) => Err(f),
                                    Ok(vt) => if vt == elem {
                                        Ok(Type::Unit)
                                    } else {
                                        Err(
                                            fault(
                                                span,
                                                "cannot push "@ + vt.shown() + " onto an array of "@
                                                    + elem.shown(),
                                            ),
                                        )
                                    },
                                },
                            )
                        },
                    }
                } else {
                    (
                        args1,
                        match builtin_type(t, name, at) {
                            Ok(ty) => Ok(ty),
                            Err(m) => Err(fault(span, m)),
                        },
                    )
                },
            }
        }
    } else if t.struct_ids.contains_key(name) {
        let id = t.struct_ids[name];
        let def = t.structs[id as int];
        if args.len() != def.fields.len() {
            (
                args,
                Err(
                    fault(
                        span,
                        "`"@ + def.name + "` has "@ + dec(def.fields.len()) + " field(s), got "@
                            + dec(args.len()) + " argument(s)"@,
                    ),
                ),
            )
        } else {
            let (args1, r) = typed_list(t, sc, args, Want::Fields { def }, 0);
            (
                args1,
                match r {
                    Err(f) => Err(f),
                    Ok(_) => Ok(Type::Struct(id)),
                },
            )
        }
    } else if t.functions.contains_key(name) {
        let sig = t.functions[name];
        if args.len() < sig.params.len() || (!sig.varargs && args.len() != sig.params.len()) {
            (
                args,
                Err(
                    fault(
                        span,
                        "`"@ + name + "` expects "@ + (if sig.varargs {
                            "at least "@
                        } else {
                            ""@
                        }) + dec(sig.params.len()) + " argument(s), got "@ + dec(args.len()),
                    ),
                ),
            )
        } else {
            let (args1, r) = typed_list(t, sc, args, Want::Params { name, sig, span }, 0);
            (
                args1,
                match r {
                    Err(f) => Err(f),
                    Ok(_) => Ok(sig.ret),
                },
            )
        }
    } else {
        (args, Err(fault(span, "call to undefined function `"@ + name + "`"@)))
    }
}

/// The arguments of a method call on a receiver of type `rt`, and its type.
pub open spec fn typed_method(
    t: Tables,
    sc: Scopes,
    rt: Type,
    recv_span: Span,
    name: Seq<char>,
    args: Seq<ExprV>,
    span: Span,
) -> (Seq<ExprV>, Result<Type, Fault>)
    decreases args, args.len() + 2,
{
    match rt {
        Type::Struct(id) => {
            let owner = t.structs[id as int].name;
            if !t.methods[id as int].contains_key(name) {
                (args, Err(fault(span, "`"@ + owner + "` has no method `"@ + name + "`"@)))
            } else {
                let sig = t.methods[id as int][name];
                if args.len() != sig.params.len() {
                    (
                        args,
                        Err(
                            fault(
                                span,
                                "method `"@ + name + "` of `"@ + owner + "` expects "@ + dec(
                                    sig.params.len(),
                                ) + " argument(s), got "@ + dec(args.len()),
                            ),
                        ),
                    )
                } else {
                    let (args1, r) = typed_list(t, sc, args, Want::Method { name, sig }, 0);
                    (
                        args1,
                        match r {
                            Err(f) => Err(f),
                            Ok(_) => Ok(sig.ret),
                        },
                    )
                }
            }
        },
        _ => (
            args,
            Err(fault(recv_span, "type "@ + named(t, rt) + " has no methods to call"@)),
        ),
    }
}

/// The elements of an array literal, and its type.
pub open spec fn typed_array(t: Tables, sc: Scopes, es: Seq<ExprV>, span: Span) -> (
    Seq<ExprV>,
    Result<Type, Fault>,
)
    decreases es, es.len() + 2,
{
    if es.len() == 0 {
        (es, Err(fault(span, "cannot infer the element type of `[]` here"@)))
    } else {
        let (first, r) = typed(t, sc, es[0]);
        match r {
            Err(f) => (es.update(0, first), Err(f)),
            Ok(ty) => match checked_array(ty) {
                None => (
                    es.update(0, first),
                    Err(fault(span, "arrays of "@ + ty.shown() + " are not supported"@)),
                ),
                Some(array) => {
                    let (rest, r1) = typed_list(t, sc, es, Want::Elems { first: ty }, 1);
                    (
                        seq![first] + rest,
                        match r1 {
                            Err(f) => Err(f),
                            Ok(_) => Ok(array),
                        },
                    )
                },
            },
        }
    }
}

/// The arguments from position `i` on, and the first fault among them.
pub open spec fn typed_list(t: Tables, sc: Scopes, es: Seq<ExprV>, w: Want, i: int) -> (
    Seq<ExprV>,
    Result<(), Fault>,
)
    decreases es, es.len() - i,
{
    if i < 0 || i >= es.len() {
        (Seq::empty(), Ok(()))
    } else {
        let (e, r) = typed(t, sc, es[i]);
        match r {
            Err(f) => (seq![e] + es.skip(i + 1), Err(f)),
            Ok(at) => match refusal(t, w, i, at, e.span) {
                Some(f) => (seq![e] + es.skip(i + 1), Err(f)),
                None => {
                    let (rest, r1) = typed_list(t, sc, es, w, i + 1);
                    (seq![e] + rest, r1)
                },
            },
        }
    }
}

// ----- statements -----------------------------------------------------------------------
/// What a check leaves behind: the tree, the environment, and the first fault.
pub type Checked<T> = (T, Env, Result<(), Fault>);

/// The type that an empty array literal takes, where a binding annotates one.
pub open spec fn is_empty_array(e: ExprV) -> bool {
    e.kind matches KindV::ArrayLit(es) && es.len() == 0
}

/// The environment and the fault of declaring a binding.
pub open spec fn bound(env: Env, name: Seq<char>, ty: Type, span: Span)
    -> (Env, Result<(), Fault>) {
    (
        Env { scopes: declare(env.scopes, name, ty), ..env },
        if is_new(env.scopes, name) {
            Ok(())
        } else {
            Err(fault(span, "`"@ + name + "` is already defined in this scope"@))
        },
    )
}

/// A binding after its check.
#[verifier::opaque]
pub open spec fn checked_let(
    t: Tables,
    env: Env,
    name: Seq<char>,
    ty: Option<Type>,
    value: ExprV,
    line: usize,
) -> Checked<StmtV> {
    if is_empty_array(value) {
        match ty {
            Some(annotated) => if annotated is Array {
                let typed_value = ExprV { ty: Some(annotated), ..value };
                let (env1, r) = bound(env, name, annotated, value.span);
                (StmtV::Let { name, ty, value: typed_value, line }, env1, r)
            } else {
                (StmtV::Let { name, ty, value, line }, env, Err(uninferable(name, value.span)))
            },
            None => (StmtV::Let { name, ty, value, line }, env, Err(uninferable(name, value.span))),
        }
    } else {
        let (value1, r) = typed(t, env.scopes, value);
        match r {
            Err(f) => (StmtV::Let { name, ty, value: value1, line }, env, Err(f)),
            Ok(inferred) => if inferred == Type::Unit {
                (
                    StmtV::Let { name, ty, value: value1, line },
                    env,
                    Err(
                        fault(
                            value1.span,
                            "cannot bind `"@ + name + "` to a unit (no-value) expression"@,
                        ),
                    ),
                )
            } else if ty matches Some(annotated) && annotated != inferred {
                (
                    StmtV::Let { name, ty, value: value1, line },
                    env,
                    Err(
                        fault(
                            value1.span,
                            "type mismatch: `"@ + name + "` declared as "@ + ty->0.shown()
                                + " but initialized with "@ + inferred.shown(),
                        ),
                    ),
                )
            } else {
                let (env1, r1) = bound(env, name, inferred, value1.span);
                (StmtV::Let { name, ty: Some(inferred), value: value1, line }, env1, r1)
            },
        }
    }
}

/// The fault of an empty array literal without an array type to take.
pub open spec fn uninferable(name: Seq<char>, span: Span) -> Fault {
    fault(
        span,
        "cannot infer the element type of `[]`; annotate the binding, e.g. `let "@ + name
            + ": [int] = []`"@,
    )
}

/// An assignment after its check.
#[verifier::opaque]
pub open spec fn checked_assign(t: Tables, env: Env, name: Seq<char>, value: ExprV, line: usize)
    -> (
    StmtV,
    Result<(), Fault>,
) {
    match lookup(env.scopes, name) {
        None => (
            StmtV::Assign { name, value, line },
            Err(
                fault(Span::of_line(line), "assignment to undefined variable `"@ + name + "`"@),
            ),
        ),
        Some(var) => {
            let (value1, r) = typed(t, env.scopes, value);
            (
                StmtV::Assign { name, value: value1, line },
                match r {
                    Err(f) => Err(f),
                    Ok(vt) => if vt == var {
                        Ok(())
                    } else {
                        Err(
                            fault(
                                value1.span,
                                "type mismatch: cannot assign "@ + vt.shown() + " to `"@ + name
                                    + "` of type "@ + var.shown(),
                            ),
                        )
                    },
                },
            )
        },
    }
}

/// A store into an array after its check.
#[verifier::opaque]
pub open spec fn checked_index_assign(
    t: Tables,
    env: Env,
    target: ExprV,
    index: ExprV,
    value: ExprV,
    line: usize,
) -> (StmtV, Result<(), Fault>) {
    let (target1, r) = typed(t, env.scopes, target);
    match r {
        Err(f) => (StmtV::IndexAssign { target: target1, index, value, line }, Err(f)),
        Ok(tt) => match tt.elem() {
            None => (
                StmtV::IndexAssign { target: target1, index, value, line },
                Err(
                    fault(target1.span, "cannot index-assign into a value of type "@ + tt.shown()),
                ),
            ),
            Some(elem) => {
                let (index1, r1) = typed(t, env.scopes, index);
                match r1 {
                    Err(f) => (
                        StmtV::IndexAssign { target: target1, index: index1, value, line },
                        Err(f),
                    ),
                    Ok(it) => if it != Type::Int {
                        (
                            StmtV::IndexAssign { target: target1, index: index1, value, line },
                            Err(
                                fault(index1.span, "array index must be int, found "@ + it.shown()),
                            ),
                        )
                    } else {
                        let (value1, r2) = typed(t, env.scopes, value);
                        (
                            StmtV::IndexAssign {
                                target: target1,
                                index: index1,
                                value: value1,
                                line,
                            },
                            match r2 {
                                Err(f) => Err(f),
                                Ok(vt) => if vt == elem {
                                    Ok(())
                                } else {
                                    Err(
                                        fault(
                                            value1.span,
                                            "type mismatch: cannot store "@ + vt.shown()
                                                + " in an array of "@ + elem.shown(),
                                        ),
                                    )
                                },
                            },
                        )
                    },
                }
            },
        },
    }
}

/// A store into a field after its check.
#[verifier::opaque]
pub open spec fn checked_field_assign(
    t: Tables,
    env: Env,
    target: ExprV,
    field: Seq<char>,
    value: ExprV,
    line: usize,
) -> (StmtV, Result<(), Fault>) {
    let (target1, r) = typed(t, env.scopes, target);
    let unchecked = StmtV::FieldAssign { target: target1, field, value, line };
    match r {
        Err(f) => (unchecked, Err(f)),
        Ok(bt) => match bt {
            Type::Struct(id) => {
                let def = t.structs[id as int];
                match def.field_of(field) {
                    None => (
                        unchecked,
                        Err(
                            fault(
                                target1.span,
                                "`"@ + def.name + "` has no field `"@ + field + "`"@,
                            ),
                        ),
                    ),
                    Some((_, ft)) => {
                        let (value1, r1) = typed(t, env.scopes, value);
                        (
                            StmtV::FieldAssign { target: target1, field, value: value1, line },
                            match r1 {
                                Err(f) => Err(f),
                                Ok(vt) => if vt == ft {
                                    Ok(())
                                } else {
                                    Err(
                                        fault(
                                            value1.span,
                                            "type mismatch: field `"@ + field + "` of `"@ + def.name
                                                + "` is "@ + named(t, ft) + ", found "@ + named(
                                                t,
                                                vt,
                                            ),
                                        ),
                                    )
                                },
                            },
                        )
                    },
                }
            },
            _ => (
                unchecked,
                Err(
                    fault(target1.span, "type "@ + named(t, bt) + " has no fields to assign"@),
                ),
            ),
        },
    }
}

/// A return after its check.
#[verifier::opaque]
pub open spec fn checked_return(
    t: Tables,
    ret: Type,
    env: Env,
    value: Option<ExprV>,
    line: usize,
) -> (StmtV, Result<(), Fault>) {
    match value {
        None => (
            StmtV::Return { value, line },
            if ret == Type::Unit {
                Ok(())
            } else {
                Err(return_mismatch(ret, Type::Unit, Span::of_line(line)))
            },
        ),
        Some(e) => {
            let (e1, r) = typed(t, env.scopes, e);
            (
                StmtV::Return { value: Some(e1), line },
                match r {
                    Err(f) => Err(f),
                    Ok(ty) => if ty == ret {
                        Ok(())
                    } else {
                        Err(return_mismatch(ret, ty, e1.span))
                    },
                },
            )
        },
    }
}

pub open spec fn return_mismatch(ret: Type, ty: Type, span: Span) -> Fault {
    fault(
        span,
        "return type mismatch: function returns "@ + ret.shown() + " but got "@ + ty.shown(),
    )
}

/// An expression that must have type `want`; `what` names it in the fault.
pub open spec fn typed_as(t: Tables, sc: Scopes, e: ExprV, want: Type, what: Seq<char>) -> (
    ExprV,
    Result<(), Fault>,
) {
    let (e1, r) = typed(t, sc, e);
    (
        e1,
        match r {
            Err(f) => Err(f),
            Ok(ty) => if ty == want {
                Ok(())
            } else {
                Err(fault(e1.span, what + ty.shown()))
            },
        },
    )
}

/// The fault of a jump outside every loop.
pub open spec fn checked_jump(env: Env, line: usize) -> Result<(), Fault> {
    if env.in_loop {
        Ok(())
    } else {
        Err(fault(Span::of_line(line), "`break`/`continue` outside of a loop"@))
    }
}

/// A statement after its check, the environment behind it, and the first fault
/// in it.
pub open spec fn checked(t: Tables, ret: Type, env: Env, s: StmtV) -> Checked<StmtV>
    decreases s, 1nat,
{
    match s {
        StmtV::Let { name, ty, value, line } => checked_let(t, env, name, ty, value, line),
        StmtV::Assign { name, value, line } => {
            let (s1, r) = checked_assign(t, env, name, value, line);
            (s1, env, r)
        },
        StmtV::IndexAssign { target, index, value, line } => {
            let (s1, r) = checked_index_assign(t, env, target, index, value, line);
            (s1, env, r)
        },
        StmtV::FieldAssign { target, field, value, line } => {
            let (s1, r) = checked_field_assign(t, env, target, field, value, line);
            (s1, env, r)
        },
        StmtV::Expr(e) => {
            let (e1, r) = typed(t, env.scopes, e);
            (
                StmtV::Expr(e1),
                env,
                match r {
                    Err(f) => Err(f),
                    Ok(_) => Ok(()),
                },
            )
        },
        StmtV::Return { value, line } => {
            let (s1, r) = checked_return(t, ret, env, value, line);
            (s1, env, r)
        },
        StmtV::If { .. } => checked_if(t, ret, env, s),
        StmtV::While { .. } => checked_while(t, ret, env, s),
        StmtV::For { .. } => checked_range(t, ret, env, s),
        StmtV::ForEach { .. } => checked_each(t, ret, env, s),
        StmtV::Match { .. } => checked_match(t, ret, env, s),
        StmtV::Break { line } => (s, env, checked_jump(env, line)),
        StmtV::Continue { line } => (s, env, checked_jump(env, line)),
        StmtV::Retain(_) => (s, env, Ok(())),
        StmtV::Release(_) => (s, env, Ok(())),
    }
}

/// A conditional after its check.
pub open spec fn checked_if(t: Tables, ret: Type, env: Env, s: StmtV) -> Checked<StmtV>
    decreases s, 0nat,
{
    match s {
        StmtV::If { cond, then_block, else_block } => {
            let (cond1, r) = typed_as(
                t,
                env.scopes,
                cond,
                Type::Bool,
                "if condition must be bool, found "@,
            );
            match r {
                Err(f) => (StmtV::If { cond: cond1, then_block, else_block }, env, Err(f)),
                Ok(_) => {
                    let (then1, env1, r1) = checked_block(t, ret, env, then_block);
                    match r1 {
                        Err(f) => (
                            StmtV::If { cond: cond1, then_block: then1, else_block },
                            env1,
                            Err(f),
                        ),
                        Ok(_) => match else_block {
                            None => (
                                StmtV::If { cond: cond1, then_block: then1, else_block },
                                env1,
                                Ok(()),
                            ),
                            Some(b) => {
                                let (else1, env2, r2) = checked_block(t, ret, env1, b);
                                (
                                    StmtV::If {
                                        cond: cond1,
                                        then_block: then1,
                                        else_block: Some(else1),
                                    },
                                    env2,
                                    r2,
                                )
                            },
                        },
                    }
                },
            }
        },
        _ => (s, env, Ok(())),
    }
}

/// A `while` loop after its check.
pub open spec fn checked_while(t: Tables, ret: Type, env: Env, s: StmtV) -> Checked<StmtV>
    decreases s, 0nat,
{
    match s {
        StmtV::While { cond, body } => {
            let (cond1, r) = typed_as(
                t,
                env.scopes,
                cond,
                Type::Bool,
                "while condition must be bool, found "@,
            );
            match r {
                Err(f) => (StmtV::While { cond: cond1, body }, env, Err(f)),
                Ok(_) => {
                    let (body1, env1, r1) = checked_loop(t, ret, env, body);
                    (StmtV::While { cond: cond1, body: body1 }, env1, r1)
                },
            }
        },
        _ => (s, env, Ok(())),
    }
}

/// A counting loop after its check.
pub open spec fn checked_range(t: Tables, ret: Type, env: Env, s: StmtV) -> Checked<StmtV>
    decreases s, 0nat,
{
    match s {
        StmtV::For { var, start, end, body, line } => {
            let (start1, r) = typed_as(
                t,
                env.scopes,
                start,
                Type::Int,
                "range start must be int, found "@,
            );
            match r {
                Err(f) => (StmtV::For { var, start: start1, end, body, line }, env, Err(f)),
                Ok(_) => {
                    let (end1, r1) = typed_as(
                        t,
                        env.scopes,
                        end,
                        Type::Int,
                        "range end must be int, found "@,
                    );
                    match r1 {
                        Err(f) => (
                            StmtV::For { var, start: start1, end: end1, body, line },
                            env,
                            Err(f),
                        ),
                        Ok(_) => {
                            let (body1, env1, r2) = checked_for(t, ret, env, var, Type::Int, body);
                            (
                                StmtV::For { var, start: start1, end: end1, body: body1, line },
                                env1,
                                r2,
                            )
                        },
                    }
                },
            }
        },
        _ => (s, env, Ok(())),
    }
}

/// A loop over an array after its check.
pub open spec fn checked_each(t: Tables, ret: Type, env: Env, s: StmtV) -> Checked<StmtV>
    decreases s, 0nat,
{
    match s {
        StmtV::ForEach { var, iterable, body, line } => {
            let (iterable1, r) = typed(t, env.scopes, iterable);
            match r {
                Err(f) => (
                    StmtV::ForEach { var, iterable: iterable1, body, line },
                    env,
                    Err(f),
                ),
                Ok(it) => match it.elem() {
                    None => (
                        StmtV::ForEach { var, iterable: iterable1, body, line },
                        env,
                        Err(
                            fault(
                                iterable1.span,
                                "for-in iterates over an array, found "@ + it.shown(),
                            ),
                        ),
                    ),
                    Some(elem) => {
                        let (body1, env1, r1) = checked_for(t, ret, env, var, elem, body);
                        (
                            StmtV::ForEach { var, iterable: iterable1, body: body1, line },
                            env1,
                            r1,
                        )
                    },
                },
            }
        },
        _ => (s, env, Ok(())),
    }
}

/// A match after its check.
pub open spec fn checked_match(t: Tables, ret: Type, env: Env, s: StmtV) -> Checked<StmtV>
    decreases s, 0nat,
{
    match s {
        StmtV::Match { scrutinee, arms, line } => {
            let (scrutinee1, r) = typed(t, env.scopes, scrutinee);
            match r {
                Err(f) => (StmtV::Match { scrutinee: scrutinee1, arms, line }, env, Err(f)),
                Ok(st) => match st {
                    Type::Enum(id) => {
                        let def = t.enums[id as int];
                        let (arms1, env1, r1) = checked_arms(
                            t,
                            ret,
                            env,
                            def,
                            arms,
                            0,
                            Seq::new(def.variants.len(), |i: int| false),
                            false,
                            line,
                        );
                        (StmtV::Match { scrutinee: scrutinee1, arms: arms1, line }, env1, r1)
                    },
                    _ => (
                        StmtV::Match { scrutinee: scrutinee1, arms, line },
                        env,
                        Err(
                            fault(
                                scrutinee1.span,
                                "match scrutinee must be an enum, found "@ + named(t, st),
                            ),
                        ),
                    ),
                },
            }
        },
        _ => (s, env, Ok(())),
    }
}

/// A block after its check, in a scope of its own, which a fault leaves open.
pub open spec fn checked_block(t: Tables, ret: Type, env: Env, b: Seq<StmtV>) -> Checked<Seq<StmtV>>
    decreases b, b.len() + 1,
{
    let (b1, env1, r) = checked_stmts(
        t,
        ret,
        Env { scopes: pushed(env.scopes), ..env },
        b,
        0,
    );
    match r {
        Err(f) => (b1, env1, Err(f)),
        Ok(_) => (b1, Env { scopes: env1.scopes.drop_last(), ..env1 }, Ok(())),
    }
}

/// The statements of a block from position `i` on.
pub open spec fn checked_stmts(t: Tables, ret: Type, env: Env, b: Seq<StmtV>, i: int) -> Checked<
    Seq<StmtV>,
>
    decreases b, b.len() - i,
{
    if i < 0 || i >= b.len() {
        (Seq::empty(), env, Ok(()))
    } else {
        let (s, env1, r) = checked(t, ret, env, b[i]);
        match r {
            Err(f) => (seq![s] + b.skip(i + 1), env1, Err(f)),
            Ok(_) => {
                let (rest, env2, r1) = checked_stmts(t, ret, env1, b, i + 1);
                (seq![s] + rest, env2, r1)
            },
        }
    }
}

/// The body of a loop.
pub open spec fn checked_loop(t: Tables, ret: Type, env: Env, b: Seq<StmtV>) -> Checked<Seq<StmtV>>
    decreases b, b.len() + 2,
{
    let (b1, env1, r) = checked_block(t, ret, Env { in_loop: true, ..env }, b);
    match r {
        Err(f) => (b1, env1, Err(f)),
        Ok(_) => (b1, Env { in_loop: env.in_loop, ..env1 }, Ok(())),
    }
}

/// The body of a loop over a variable, which lives in its own scope wrapping
/// the body.
pub open spec fn checked_for(
    t: Tables,
    ret: Type,
    env: Env,
    var: Seq<char>,
    ty: Type,
    b: Seq<StmtV>,
) -> Checked<Seq<StmtV>>
    decreases b, b.len() + 3,
{
    let (b1, env1, r) = checked_loop(
        t,
        ret,
        Env { scopes: declare(pushed(env.scopes), var, ty), ..env },
        b,
    );
    match r {
        Err(f) => (b1, env1, Err(f)),
        Ok(_) => (b1, Env { scopes: env1.scopes.drop_last(), ..env1 }, Ok(())),
    }
}

/// The scopes with the names from position `i` on declared, and the first name
/// that was there already.
pub open spec fn bind_all(
    scopes: Scopes,
    names: Seq<Seq<char>>,
    types: Seq<Type>,
    i: int,
) -> (Scopes, Option<Seq<char>>)
    decreases names.len() - i,
{
    if i < 0 || i >= names.len() {
        (scopes, None)
    } else if !is_new(scopes, names[i]) {
        (declare(scopes, names[i], types[i]), Some(names[i]))
    } else {
        bind_all(declare(scopes, names[i], types[i]), names, types, i + 1)
    }
}

/// The names of the variants from position `i` on that no arm covers, with
/// commas between them.
pub open spec fn missing(def: EnumV, covered: Seq<bool>, i: int, found: bool) -> Seq<char>
    decreases def.variants.len() - i,
{
    if i < 0 || i >= def.variants.len() {
        Seq::empty()
    } else if covered[i] {
        missing(def, covered, i + 1, found)
    } else if found {
        ", "@ + def.variants[i].name + missing(def, covered, i + 1, true)
    } else {
        def.variants[i].name + missing(def, covered, i + 1, true)
    }
}

/// Whether every variant is covered.
pub open spec fn all_covered(covered: Seq<bool>) -> bool {
    forall|i: int| 0 <= i < covered.len() ==> #[trigger] covered[i]
}

/// The arms of a match on `def` from position `i` on; `covered` says which
/// variants the arms before it cover, `wild` whether one of them covers all.
pub open spec fn checked_arms(
    t: Tables,
    ret: Type,
    env: Env,
    def: EnumV,
    arms: Seq<ArmV>,
    i: int,
    covered: Seq<bool>,
    wild: bool,
    line: usize,
) -> Checked<Seq<ArmV>>
    decreases arms, arms.len() - i,
{
    let at = Span::of_line(line);
    if i < 0 || i >= arms.len() {
        (
            Seq::empty(),
            env,
            if wild || all_covered(covered) {
                Ok(())
            } else {
                Err(
                    fault(
                        at,
                        "non-exhaustive match on `"@ + def.name + "`: missing "@ + missing(
                            def,
                            covered,
                            0,
                            false,
                        ) + " (add the variant(s) or a `_` arm)"@,
                    ),
                )
            },
        )
    } else {
        let rest = arms.skip(i + 1);
        let (arm, env1, r) = checked_arm(t, ret, env, def, arms[i], covered, wild, line);
        match r {
            Err(f) => (seq![arm] + rest, env1, Err(f)),
            Ok(_) => {
                let (rest1, env2, r1) = checked_arms(
                    t,
                    ret,
                    env1,
                    def,
                    arms,
                    i + 1,
                    covering(def, covered, arms[i]),
                    wild || arms[i].pattern is Wildcard,
                    line,
                );
                (seq![arm] + rest1, env2, r1)
            },
        }
    }
}

/// The variants covered once an arm is there too.
pub open spec fn covering(def: EnumV, covered: Seq<bool>, arm: ArmV) -> Seq<bool> {
    match arm.pattern {
        PatternV::Wildcard => covered,
        PatternV::Variant { name, bindings, types } => match def.variant_of(name) {
            Some(v) => covered.update(v, true),
            None => covered,
        },
    }
}

/// One arm after its check.
pub open spec fn checked_arm(
    t: Tables,
    ret: Type,
    env: Env,
    def: EnumV,
    arm: ArmV,
    covered: Seq<bool>,
    wild: bool,
    line: usize,
) -> Checked<ArmV>
    decreases arm, 0nat,
{
    let at = Span::of_line(line);
    match arm.pattern {
        PatternV::Wildcard => if wild {
            (arm, env, Err(fault(at, "duplicate `_` arm in match"@)))
        } else {
            let (body1, env1, r) = checked_block(t, ret, env, arm.body);
            (ArmV { pattern: arm.pattern, body: body1 }, env1, r)
        },
        PatternV::Variant { name, bindings, types } => match def.variant_of(name) {
            None => (
                arm,
                env,
                Err(fault(at, "`"@ + def.name + "` has no variant `"@ + name + "`"@)),
            ),
            Some(v) => {
                let fields = def.variants[v].fields;
                if covered[v] {
                    (
                        arm,
                        env,
                        Err(fault(at, "duplicate match arm for variant `"@ + name + "`"@)),
                    )
                } else if bindings.len() != fields.len() {
                    (
                        arm,
                        env,
                        Err(
                            fault(
                                at,
                                "variant `"@ + name + "` binds "@ + dec(bindings.len())
                                    + " value(s) but carries "@ + dec(fields.len()) + " field(s)"@,
                            ),
                        ),
                    )
                } else {
                    let pattern = PatternV::Variant { name, bindings, types: fields };
                    let (scopes1, twice) = bind_all(pushed(env.scopes), bindings, fields, 0);
                    match twice {
                        Some(b) => (
                            ArmV { pattern, body: arm.body },
                            Env { scopes: scopes1.drop_last(), ..env },
                            Err(fault(at, "duplicate binding `"@ + b + "` in pattern"@)),
                        ),
                        None => {
                            let (body1, env1, r) = checked_block(
                                t,
                                ret,
                                Env { scopes: scopes1, ..env },
                                arm.body,
                            );
                            (
                                ArmV { pattern, body: body1 },
                                Env { scopes: env1.scopes.drop_last(), ..env1 },
                                r,
                            )
                        },
                    }
                }
            },
        },
    }
}

// ----- programs -------------------------------------------------------------------------
/// The state of an analysis.
#[verifier::ext_equal]
pub struct State {
    pub tables: Tables,
    pub env: Env,
    /// The result type of the function at hand.
    pub ret: Type,
}

/// The state before anything was analyzed.
pub open spec fn fresh_state() -> State {
    State {
        tables: Tables {
            functions: Map::empty(),
            methods: Seq::empty(),
            structs: Seq::empty(),
            struct_ids: Map::empty(),
            enums: Seq::empty(),
            enum_ids: Map::empty(),
            variants: Map::empty(),
        },
        env: Env { scopes: seq![Map::empty()], in_loop: false },
        ret: Type::Unit,
    }
}

/// Tables and the first fault of what was entered into them.
pub type Entered = (Tables, Result<(), Fault>);

/// A fault at a whole line.
pub open spec fn line_fault(line: usize, message: Seq<char>) -> Result<(), Fault> {
    Err(fault(Span::of_line(line), message))
}

/// The structs from position `i` on, entered.
pub open spec fn enter_structs(t: Tables, ss: Seq<StructV>, i: int) -> Entered
    decreases ss.len() - i,
{
    if i < 0 || i >= ss.len() {
        (t, Ok(()))
    } else {
        let t1 = Tables { struct_ids: t.struct_ids.insert(ss[i].name, i as u32), ..t };
        if builtin(ss[i].name) {
            (
                t1,
                line_fault(
                    ss[i].line,
                    "struct `"@ + ss[i].name + "` collides with a builtin"@,
                ),
            )
        } else {
            enter_structs(t1, ss, i + 1)
        }
    }
}

/// The enums from position `i` on, entered without their variants.
pub open spec fn enter_enums(t: Tables, es: Seq<EnumV>, i: int) -> Entered
    decreases es.len() - i,
{
    if i < 0 || i >= es.len() {
        (t, Ok(()))
    } else if builtin(es[i].name) {
        (t, line_fault(es[i].line, "enum `"@ + es[i].name + "` collides with a builtin"@))
    } else if t.struct_ids.contains_key(es[i].name) {
        (
            t,
            line_fault(
                es[i].line,
                "`"@ + es[i].name + "` is declared as both a struct and an enum"@,
            ),
        )
    } else {
        enter_enums(
            Tables { enum_ids: t.enum_ids.insert(es[i].name, i as u32), ..t },
            es,
            i + 1,
        )
    }
}

/// The variants of enum `i` from position `j` on, entered. Variant names are
/// global and unique; they must not collide with a builtin, struct
/// constructor, or another variant.
pub open spec fn enter_variants(t: Tables, e: EnumV, i: int, j: int) -> Entered
    decreases e.variants.len() - j,
{
    if j < 0 || j >= e.variants.len() {
        (t, Ok(()))
    } else {
        let name = e.variants[j].name;
        if builtin(name) || t.struct_ids.contains_key(name) {
            (
                t,
                line_fault(
                    e.line,
                    "variant `"@ + name
                        + "` collides with a builtin or struct of the same name"@,
                ),
            )
        } else {
            let t1 = Tables { variants: t.variants.insert(name, (i as u32, j as u32)), ..t };
            if t.variants.contains_key(name) {
                (
                    t1,
                    line_fault(
                        e.line,
                        "variant `"@ + name
                            + "` is defined in more than one enum (names are global)"@,
                    ),
                )
            } else {
                enter_variants(t1, e, i, j + 1)
            }
        }
    }
}

/// The variants of the enums from position `i` on, entered.
pub open spec fn enter_all_variants(t: Tables, es: Seq<EnumV>, i: int) -> Entered
    decreases es.len() - i,
{
    if i < 0 || i >= es.len() {
        (t, Ok(()))
    } else {
        let (t1, r) = enter_variants(t, es[i], i, 0);
        match r {
            Err(f) => (t1, Err(f)),
            Ok(_) => enter_all_variants(t1, es, i + 1),
        }
    }
}

/// The foreign functions from position `i` on, entered.
pub open spec fn enter_externs(t: Tables, xs: Seq<ExternV>, i: int) -> Entered
    decreases xs.len() - i,
{
    if i < 0 || i >= xs.len() {
        (t, Ok(()))
    } else {
        let x = xs[i];
        let sig = SigV { params: x.params, varargs: x.varargs, ret: x.ret };
        let t1 = Tables { functions: t.functions.insert(x.name, sig), ..t };
        if t.functions.contains_key(x.name) {
            (t1, line_fault(x.line, "duplicate declaration of `"@ + x.name + "`"@))
        } else {
            enter_externs(t1, xs, i + 1)
        }
    }
}

/// The types of some parameters.
pub open spec fn param_types(params: Seq<ParamV>) -> Seq<Type> {
    Seq::new(params.len(), |i: int| params[i].ty)
}

/// A function or method, entered.
pub open spec fn enter_function(t: Tables, f: FunctionV) -> Entered {
    let sig = SigV { params: param_types(f.params), varargs: false, ret: f.ret };
    match f.recv {
        Some(recv) => match recv.ty {
            Type::Struct(id) => {
                let own = t.methods[id as int];
                let t1 = Tables {
                    methods: t.methods.update(id as int, own.insert(f.name, sig)),
                    ..t
                };
                if own.contains_key(f.name) {
                    (
                        t1,
                        line_fault(
                            f.line,
                            "duplicate method `"@ + f.name + "` on `"@
                                + t.structs[id as int].name + "`"@,
                        ),
                    )
                } else {
                    (t1, Ok(()))
                }
            },
            other => (
                t,
                line_fault(
                    f.line,
                    "method receiver `"@ + recv.name + "` must be a struct, found "@ + named(
                        t,
                        other,
                    ),
                ),
            ),
        },
        None => {
            let t1 = Tables { functions: t.functions.insert(f.name, sig), ..t };
            if t.functions.contains_key(f.name) {
                (t1, line_fault(f.line, "duplicate definition of `"@ + f.name + "`"@))
            } else if t.struct_ids.contains_key(f.name) {
                (
                    t1,
                    line_fault(
                        f.line,
                        "`"@ + f.name + "` is defined as both a struct and a function"@,
                    ),
                )
            } else if t.enum_ids.contains_key(f.name) || t.variants.contains_key(f.name) {
                (
                    t1,
                    line_fault(
                        f.line,
                        "`"@ + f.name + "` collides with an enum or variant of the same name"@,
                    ),
                )
            } else {
                (t1, Ok(()))
            }
        },
    }
}

/// The functions from position `i` on, entered.
pub open spec fn enter_functions(t: Tables, fs: Seq<FunctionV>, i: int) -> Entered
    decreases fs.len() - i,
{
    if i < 0 || i >= fs.len() {
        (t, Ok(()))
    } else {
        let (t1, r) = enter_function(t, fs[i]);
        match r {
            Err(f) => (t1, Err(f)),
            Ok(_) => enter_functions(t1, fs, i + 1),
        }
    }
}

/// The method tables, with one for each of `n` structs at least.
pub open spec fn padded(methods: Seq<Map<Seq<char>, SigV>>, n: nat) -> Seq<Map<Seq<char>, SigV>> {
    if methods.len() >= n {
        methods
    } else {
        Seq::new(
            n,
            |i: int|
                if i < methods.len() {
                    methods[i]
                } else {
                    Map::empty()
                },
        )
    }
}

/// Every declaration of a program, entered: structs, enums, variants, foreign
/// functions, functions. Signatures come before bodies, so call order does
/// not matter.
pub open spec fn enter_all(t: Tables, p: ProgramV) -> Entered {
    let t0 = Tables {
        structs: p.structs,
        methods: padded(t.methods, p.structs.len()),
        ..t
    };
    let (t1, r1) = enter_structs(t0, p.structs, 0);
    if r1 is Err {
        (t1, r1)
    } else {
        let (t2, r2) = enter_enums(Tables { enums: p.enums, ..t1 }, p.enums, 0);
        if r2 is Err {
            (t2, r2)
        } else {
            let (t3, r3) = enter_all_variants(t2, p.enums, 0);
            if r3 is Err {
                (t3, r3)
            } else {
                let (t4, r4) = enter_externs(t3, p.externs, 0);
                if r4 is Err {
                    (t4, r4)
                } else {
                    enter_functions(t4, p.functions, 0)
                }
            }
        }
    }
}

/// The scopes with the parameters from position `i` on declared, and the first
/// name that was there already.
pub open spec fn bind_params(scopes: Scopes, params: Seq<ParamV>, i: int) -> (
    Scopes,
    Option<Seq<char>>,
)
    decreases params.len() - i,
{
    if i < 0 || i >= params.len() {
        (scopes, None)
    } else if !is_new(scopes, params[i].name) {
        (declare(scopes, params[i].name, params[i].ty), Some(params[i].name))
    } else {
        bind_params(declare(scopes, params[i].name, params[i].ty), params, i + 1)
    }
}

/// The scope a function's parameters are declared in: its receiver, if any.
pub open spec fn receiver_scope(f: FunctionV) -> Scopes {
    match f.recv {
        Some(recv) => declare(seq![Map::empty()], recv.name, recv.ty),
        None => seq![Map::empty()],
    }
}

/// A function after its check.
pub open spec fn checked_function(st: State, f: FunctionV)
    -> (FunctionV, State, Result<(), Fault>) {
    let (scopes, twice) = bind_params(receiver_scope(f), f.params, 0);
    let env = Env { scopes, in_loop: st.env.in_loop };
    match twice {
        Some(name) => (
            f,
            State { env, ret: f.ret, ..st },
            line_fault(f.line, "duplicate parameter `"@ + name + "` in `"@ + f.name + "`"@),
        ),
        None => {
            let (body, env1, r) = checked_block(st.tables, f.ret, env, f.body);
            (FunctionV { body, ..f }, State { env: env1, ret: f.ret, ..st }, r)
        },
    }
}

/// The functions from position `i` on, checked.
pub open spec fn checked_functions(st: State, fs: Seq<FunctionV>, i: int) -> (
    Seq<FunctionV>,
    State,
    Result<(), Fault>,
)
    decreases fs.len() - i,
{
    if i < 0 || i >= fs.len() {
        (Seq::empty(), st, Ok(()))
    } else {
        let (f, st1, r) = checked_function(st, fs[i]);
        match r {
            Err(e) => (seq![f] + fs.skip(i + 1), st1, Err(e)),
            Ok(_) => {
                let (rest, st2, r1) = checked_functions(st1, fs, i + 1);
                (seq![f] + rest, st2, r1)
            },
        }
    }
}

/// A program after its analysis, the state behind it, and the first fault.
pub open spec fn analyzed(st: State, p: ProgramV) -> (ProgramV, State, Result<(), Fault>) {
    let (tables, r) = enter_all(st.tables, p);
    let st1 = State { tables, ..st };
    match r {
        Err(f) => (p, st1, Err(f)),
        Ok(_) => {
            let (functions, st2, r1) = checked_functions(st1, p.functions, 0);
            (ProgramV { functions, ..p }, st2, r1)
        },
    }
}

// ----- programs whose ids mean something --------------------------------------------------
/// Whether a type names only declared structs and enums.
pub open spec fn known(ns: nat, ne: nat, ty: Type) -> bool {
    &&& ty.wf()
    &&& match ty {
        Type::Struct(id) => id < ns,
        Type::Enum(id) => id < ne,
        Type::Array(crate::ast::ElemType::Struct(id), _) => id < ns,
        Type::Array(crate::ast::ElemType::Enum(id), _) => id < ne,
        _ => true,
    }
}

pub open spec fn all_known(ns: nat, ne: nat, types: Seq<Type>) -> bool {
    forall|i: int| 0 <= i < types.len() ==> known(ns, ne, #[trigger] types[i])
}

pub open spec fn sig_known(ns: nat, ne: nat, sig: SigV) -> bool {
    all_known(ns, ne, sig.params) && known(ns, ne, sig.ret)
}

pub open spec fn expr_known(ne: nat, e: ExprV) -> bool
    decreases e,
{
    kind_known(ne, e.kind)
}

/// Whether the constructors in a tree name only declared enums.
pub open spec fn kind_known(ne: nat, k: KindV) -> bool
    decreases k,
{
    match k {
        KindV::Unary(_, a) => expr_known(ne, *a),
        KindV::Binary(a, _, b) => expr_known(ne, *a) && expr_known(ne, *b),
        KindV::Call(_, args) => exprs_known(ne, args),
        KindV::MethodCall(r, _, args) => expr_known(ne, *r) && exprs_known(ne, args),
        KindV::ArrayLit(es) => exprs_known(ne, es),
        KindV::Index(a, b) => expr_known(ne, *a) && expr_known(ne, *b),
        KindV::Field(a, _) => expr_known(ne, *a),
        KindV::EnumInit(id, _, args) => id < ne && exprs_known(ne, args),
        _ => true,
    }
}

pub open spec fn exprs_known(ne: nat, es: Seq<ExprV>) -> bool
    decreases es,
{
    forall|i: int| 0 <= i < es.len() ==> expr_known(ne, #[trigger] es[i])
}

/// Whether a statement names only declared structs and enums.
pub open spec fn stmt_known(ns: nat, ne: nat, s: StmtV) -> bool
    decreases s,
{
    match s {
        StmtV::Let { name, ty, value, line } => expr_known(ne, value) && (ty matches Some(ty)
            ==> known(ns, ne, ty)),
        StmtV::Assign { name, value, line } => expr_known(ne, value),
        StmtV::IndexAssign { target, index, value, line } => expr_known(ne, target) && expr_known(
            ne,
            index,
        ) && expr_known(ne, value),
        StmtV::FieldAssign { target, field, value, line } => expr_known(ne, target) && expr_known(
            ne,
            value,
        ),
        StmtV::Expr(e) => expr_known(ne, e),
        StmtV::Return { value, line } => value matches Some(e) ==> expr_known(ne, e),
        StmtV::If { cond, then_block, else_block } => {
            &&& expr_known(ne, cond)
            &&& block_known(ns, ne, then_block)
            &&& match else_block {
                Some(b) => block_known(ns, ne, b),
                None => true,
            }
        },
        StmtV::While { cond, body } => expr_known(ne, cond) && block_known(ns, ne, body),
        StmtV::For { var, start, end, body, line } => expr_known(ne, start) && expr_known(ne, end)
            && block_known(ns, ne, body),
        StmtV::ForEach { var, iterable, body, line } => expr_known(ne, iterable) && block_known(
            ns,
            ne,
            body,
        ),
        StmtV::Match { scrutinee, arms, line } => expr_known(ne, scrutinee) && arms_known(
            ns,
            ne,
            arms,
        ),
        _ => true,
    }
}

pub open spec fn block_known(ns: nat, ne: nat, b: Seq<StmtV>) -> bool
    decreases b,
{
    forall|i: int| 0 <= i < b.len() ==> stmt_known(ns, ne, #[trigger] b[i])
}

pub open spec fn arm_known(ns: nat, ne: nat, a: ArmV) -> bool
    decreases a,
{
    block_known(ns, ne, a.body)
}

pub open spec fn arms_known(ns: nat, ne: nat, arms: Seq<ArmV>) -> bool
    decreases arms,
{
    forall|i: int| 0 <= i < arms.len() ==> arm_known(ns, ne, #[trigger] arms[i])
}

pub open spec fn params_known(ns: nat, ne: nat, params: Seq<ParamV>) -> bool {
    forall|i: int| 0 <= i < params.len() ==> known(ns, ne, (#[trigger] params[i]).ty)
}

pub open spec fn function_known(ns: nat, ne: nat, f: FunctionV) -> bool {
    &&& f.recv matches Some(r) ==> known(ns, ne, r.ty)
    &&& params_known(ns, ne, f.params)
    &&& known(ns, ne, f.ret)
    &&& block_known(ns, ne, f.body)
}

pub open spec fn structs_known(ns: nat, ne: nat, ss: Seq<StructV>) -> bool {
    forall|i: int| 0 <= i < ss.len() ==> params_known(ns, ne, (#[trigger] ss[i]).fields)
}

pub open spec fn enum_known(ns: nat, ne: nat, e: EnumV) -> bool {
    forall|j: int| 0 <= j < e.variants.len()
        ==> all_known(ns, ne, (#[trigger] e.variants[j]).fields)
}

pub open spec fn enums_known(ns: nat, ne: nat, es: Seq<EnumV>) -> bool {
    forall|i: int| 0 <= i < es.len() ==> enum_known(ns, ne, #[trigger] es[i])
}

/// Whether every type of a program names a struct or enum that it declares, and
/// its enums can be numbered.
pub open spec fn program_known(p: ProgramV) -> bool {
    let ns = p.structs.len();
    let ne = p.enums.len();
    &&& ne <= u32::MAX
    &&& structs_known(ns, ne, p.structs)
    &&& enums_known(ns, ne, p.enums)
    &&& forall|i: int|
        0 <= i < p.externs.len() ==> all_known(ns, ne, (#[trigger] p.externs[i]).params) && known(
            ns,
            ne,
            p.externs[i].ret,
        )
    &&& forall|i: int| 0 <= i < p.functions.len()
        ==> function_known(ns, ne, #[trigger] p.functions[i])
}

/// Whether the names in the tables lead to declared structs and enums.
pub open spec fn names_known(t: Tables, structs: Seq<StructV>, enums: Seq<EnumV>) -> bool {
    let ns = structs.len();
    let ne = enums.len();
    &&& forall|k: Seq<char>| t.functions.contains_key(k)
        ==> sig_known(ns, ne, #[trigger] t.functions[k])
    &&& forall|i: int, k: Seq<char>|
        0 <= i < t.methods.len() && t.methods[i].contains_key(k) ==> sig_known(
            ns,
            ne,
            #[trigger] t.methods[i][k],
        )
    &&& forall|k: Seq<char>| t.struct_ids.contains_key(k) ==> (#[trigger] t.struct_ids[k]) < ns
    &&& forall|k: Seq<char>|
        t.variants.contains_key(k) ==> {
            &&& (#[trigger] t.variants[k]).0 < ne
            &&& t.variants[k].1 < enums[t.variants[k].0 as int].variants.len()
        }
}

/// Whether the tables are complete for the structs and enums they hold.
#[verifier::opaque]
pub open spec fn tables_known(t: Tables) -> bool {
    let ns = t.structs.len();
    let ne = t.enums.len();
    &&& structs_known(ns, ne, t.structs)
    &&& enums_known(ns, ne, t.enums)
    &&& names_known(t, t.structs, t.enums)
    &&& t.methods.len() >= ns
}

/// Whether every variable has a known type.
#[verifier::opaque]
pub open spec fn scopes_known(ns: nat, ne: nat, scopes: Scopes) -> bool {
    forall|i: int, k: Seq<char>|
        0 <= i < scopes.len() && scopes[i].contains_key(k)
            ==> known(ns, ne, #[trigger] scopes[i][k])
}

} // verus!
