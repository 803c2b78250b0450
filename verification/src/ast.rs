//! The abstract syntax tree.
//!
//! The parser produces this tree; semantic analysis annotates and rewrites it
//! (notably inserting ARC retain/release), and lowering walks it. Every node
//! that owns text or children has a mathematical counterpart (`ExprV`,
//! `StmtV`, ...) over `Seq<char>` and `Seq`, which the contracts speak of.
use vstd::prelude::*;
use crate::diag::Span;
use crate::text::{cat3, dec, dec_u32, repeat_char, repeated, same};

verus! {

/// The scalar *base* of an array. Keeping it a small enum lets `Type` stay
/// `Copy`; array nesting is encoded by a separate dimension count on
/// `Type::Array`, so `[[int]]` is `Array(Int, 2)` rather than a recursive type.
#[derive(Debug, Clone, Copy, PartialEq, Eq, Structural)]
pub enum ElemType {
    Int,
    Float,
    Bool,
    Str,
    /// Interned struct id — an index into `Program::structs`.
    Struct(u32),
    /// Interned enum id — an index into `Program::enums`.
    Enum(u32),
}

#[derive(Debug, Clone, Copy, PartialEq, Eq, Structural)]
pub enum Type {
    Int,
    Float,
    Bool,
    Str,
    /// `[T]` — a growable, reference-counted array. The `u8` is the number of
    /// nesting dimensions (at least 1): `[int]` is `Array(Int, 1)`, `[[int]]`
    /// is `Array(Int, 2)`. Indexing peels off one dimension.
    Array(ElemType, u8),
    /// A user-defined struct, by interned id (index into `Program::structs`).
    Struct(u32),
    /// A user-defined enum, by interned id (index into `Program::enums`).
    Enum(u32),
    /// The "no value" type of statements and functions without `-> T`.
    Unit,
}

impl ElemType {
    /// The type of a value of this base.
    pub open spec fn as_type(self) -> Type {
        match self {
            ElemType::Int => Type::Int,
            ElemType::Float => Type::Float,
            ElemType::Bool => Type::Bool,
            ElemType::Str => Type::Str,
            ElemType::Struct(id) => Type::Struct(id),
            ElemType::Enum(id) => Type::Enum(id),
        }
    }

    pub fn to_type(self) -> (t: Type)
        ensures
            t == self.as_type(),
    {
        match self {
            ElemType::Int => Type::Int,
            ElemType::Float => Type::Float,
            ElemType::Bool => Type::Bool,
            ElemType::Str => Type::Str,
            ElemType::Struct(id) => Type::Struct(id),
            ElemType::Enum(id) => Type::Enum(id),
        }
    }

    /// The base whose type is `ty`.
    pub open spec fn of_type(ty: Type) -> Option<ElemType> {
        match ty {
            Type::Int => Some(ElemType::Int),
            Type::Float => Some(ElemType::Float),
            Type::Bool => Some(ElemType::Bool),
            Type::Str => Some(ElemType::Str),
            Type::Struct(id) => Some(ElemType::Struct(id)),
            Type::Enum(id) => Some(ElemType::Enum(id)),
            Type::Array(..) | Type::Unit => None,
        }
    }

    /// The base scalar of a non-array type. Returns `None` for arrays and unit.
    pub fn from_type(ty: Type) -> (e: Option<ElemType>)
        ensures
            e == ElemType::of_type(ty),
    {
        match ty {
            Type::Int => Some(ElemType::Int),
            Type::Float => Some(ElemType::Float),
            Type::Bool => Some(ElemType::Bool),
            Type::Str => Some(ElemType::Str),
            Type::Struct(id) => Some(ElemType::Struct(id)),
            Type::Enum(id) => Some(ElemType::Enum(id)),
            Type::Array(_, _) | Type::Unit => None,
        }
    }
}

impl Type {
    /// An array type counts its dimensions from one.
    pub open spec fn wf(self) -> bool {
        self matches Type::Array(_, dims) ==> dims >= 1
    }

    /// Whether values of this type live on the heap.
    pub open spec fn heap(self) -> bool {
        match self {
            Type::Str | Type::Array(..) | Type::Struct(_) | Type::Enum(_) => true,
            Type::Int | Type::Float | Type::Bool | Type::Unit => false,
        }
    }

    /// Heap-allocated, reference-counted types managed by ARC.
    pub fn is_heap(self) -> (b: bool)
        ensures
            b == self.heap(),
    {
        match self {
            Type::Str | Type::Array(_, _) | Type::Struct(_) | Type::Enum(_) => true,
            Type::Int | Type::Float | Type::Bool | Type::Unit => false,
        }
    }

    /// The type that indexing this type yields, where it is an array.
    pub open spec fn elem(self) -> Option<Type> {
        match self {
            Type::Array(base, dims) => Some(
                if dims == 1 {
                    base.as_type()
                } else {
                    Type::Array(base, (dims - 1) as u8)
                },
            ),
            _ => None,
        }
    }

    /// The element type produced by indexing an array once. `[[int]]` yields
    /// `[int]`; `[int]` yields `int`. `None` for non-arrays.
    pub fn array_elem(self) -> (t: Option<Type>)
        requires
            self.wf(),
        ensures
            t == self.elem(),
            t matches Some(e) ==> e.wf(),
    {
        match self {
            Type::Array(base, dims) => {
                if dims == 1 {
                    Some(base.to_type())
                } else {
                    Some(Type::Array(base, dims - 1))
                }
            },
            _ => None,
        }
    }

    /// The type of arrays whose elements have type `elem`: one dimension more
    /// on an array, one dimension on a scalar, nothing on unit.
    pub open spec fn arrays_of(elem: Type) -> Option<Type> {
        match elem {
            Type::Array(base, dims) => Some(Type::Array(base, (dims + 1) as u8)),
            Type::Unit => None,
            _ => Some(Type::Array(ElemType::of_type(elem)->0, 1)),
        }
    }

    /// Whether one more dimension still fits the dimension count.
    pub open spec fn nestable(self) -> bool {
        self matches Type::Array(_, dims) ==> dims < 255
    }

    /// Build the type of an array whose elements have type `elem`. Stacking an
    /// array on an array deepens the dimension count; `None` for `unit`.
    pub fn array_of(elem: Type) -> (t: Option<Type>)
        requires
            elem.nestable(),
        ensures
            t == Type::arrays_of(elem),
            t matches Some(a) ==> a.wf(),
    {
        match elem {
            Type::Array(base, dims) => Some(Type::Array(base, dims + 1)),
            Type::Unit => None,
            scalar => {
                match ElemType::from_type(scalar) {
                    Some(base) => Some(Type::Array(base, 1)),
                    None => None,
                }
            },
        }
    }

    /// The text of a type: arrays in as many brackets as they have
    /// dimensions, structs and enums by number.
    pub open spec fn shown(self) -> Seq<char> {
        match self {
            Type::Int => "int"@,
            Type::Float => "float"@,
            Type::Bool => "bool"@,
            Type::Str => "str"@,
            Type::Array(base, dims) => repeated('[', dims as nat) + base.shown() + repeated(
                ']',
                dims as nat,
            ),
            Type::Struct(id) => "struct#"@ + dec(id as nat),
            Type::Enum(id) => "enum#"@ + dec(id as nat),
            Type::Unit => "unit"@,
        }
    }

    /// The text of a type, as diagnostics show it.
    pub fn to_text(self) -> (s: String)
        ensures
            s@ == self.shown(),
    {
        match self {
            Type::Array(base, dims) => {
                let open = repeat_char('[', dims as usize);
                let inner = base.to_text();
                let close = repeat_char(']', dims as usize);
                cat3(open.as_str(), inner.as_str(), close.as_str())
            },
            Type::Int => String::from_str("int"),
            Type::Float => String::from_str("float"),
            Type::Bool => String::from_str("bool"),
            Type::Str => String::from_str("str"),
            Type::Struct(id) => crate::text::cat2("struct#", dec_u32(id).as_str()),
            Type::Enum(id) => crate::text::cat2("enum#", dec_u32(id).as_str()),
            Type::Unit => String::from_str("unit"),
        }
    }
}

impl ElemType {
    /// The text of a base type.
    pub open spec fn shown(self) -> Seq<char> {
        match self {
            ElemType::Int => "int"@,
            ElemType::Float => "float"@,
            ElemType::Bool => "bool"@,
            ElemType::Str => "str"@,
            ElemType::Struct(id) => "struct#"@ + dec(id as nat),
            ElemType::Enum(id) => "enum#"@ + dec(id as nat),
        }
    }

    /// The text of a base type, as diagnostics show it.
    pub fn to_text(self) -> (s: String)
        ensures
            s@ == self.shown(),
    {
        match self {
            ElemType::Int => String::from_str("int"),
            ElemType::Float => String::from_str("float"),
            ElemType::Bool => String::from_str("bool"),
            ElemType::Str => String::from_str("str"),
            ElemType::Struct(id) => crate::text::cat2("struct#", dec_u32(id).as_str()),
            ElemType::Enum(id) => crate::text::cat2("enum#", dec_u32(id).as_str()),
        }
    }
}

/// Indexing an array of `t` gives back a `t`.
pub proof fn law_elem_of_array(t: Type)
    requires
        t.wf(),
        t.nestable(),
        t != Type::Unit,
    ensures
        Type::arrays_of(t) is Some,
        Type::arrays_of(t)->0.elem() == Some(t),
{
}

/// The array type over an array's element type is that array type again.
pub proof fn law_array_of_elem(t: Type)
    requires
        t.wf(),
        t.elem() is Some,
    ensures
        Type::arrays_of(t.elem()->0) == Some(t),
{
}

/// A base and its type determine each other.
pub proof fn law_base_round_trip(e: ElemType)
    ensures
        ElemType::of_type(e.as_type()) == Some(e),
{
}

#[derive(Debug, Clone, Copy, PartialEq, Eq, Structural)]
pub enum BinOp {
    Add,
    Sub,
    Mul,
    Div,
    Rem,
    Eq,
    Ne,
    Lt,
    Le,
    Gt,
    Ge,
    And,
    Or,
}

#[derive(Debug, Clone, Copy, PartialEq, Eq, Structural)]
pub enum UnOp {
    Neg,
    Not,
}

// ----- expressions --------------------------------------------------------------
#[derive(Debug, PartialEq)]
pub struct Expr {
    pub kind: ExprKind,
    pub span: Span,
    /// Filled in by semantic analysis; `None` straight out of the parser.
    pub ty: Option<Type>,
}

#[derive(Debug, PartialEq)]
pub enum ExprKind {
    Int(i64),
    /// A floating-point literal, as the decimal text it was written with.
    Float(String),
    Bool(bool),
    Str(String),
    Var(String),
    Unary(UnOp, Box<Expr>),
    Binary(Box<Expr>, BinOp, Box<Expr>),
    Call(String, Vec<Expr>),
    /// `receiver.method(args)` — a struct method call. Lowered to a direct
    /// call passing the receiver as an implicit first argument.
    MethodCall(Box<Expr>, String, Vec<Expr>),
    /// `[e1, e2, ...]` — an empty literal needs a type annotation.
    ArrayLit(Vec<Expr>),
    /// `base[index]`
    Index(Box<Expr>, Box<Expr>),
    /// `base.field`
    Field(Box<Expr>, String),
    /// A variant constructor: enum id, variant index, payload. Written by
    /// semantic analysis — never by the parser.
    EnumInit(u32, u32, Vec<Expr>),
}

/// An expression as a value of mathematics.
#[verifier::ext_equal]
pub struct ExprV {
    pub kind: KindV,
    pub span: Span,
    pub ty: Option<Type>,
}

/// The shape of an expression as a value of mathematics.
#[verifier::ext_equal]
pub enum KindV {
    Int(i64),
    Float(Seq<char>),
    Bool(bool),
    Str(Seq<char>),
    Var(Seq<char>),
    Unary(UnOp, Box<ExprV>),
    Binary(Box<ExprV>, BinOp, Box<ExprV>),
    Call(Seq<char>, Seq<ExprV>),
    MethodCall(Box<ExprV>, Seq<char>, Seq<ExprV>),
    ArrayLit(Seq<ExprV>),
    Index(Box<ExprV>, Box<ExprV>),
    Field(Box<ExprV>, Seq<char>),
    EnumInit(u32, u32, Seq<ExprV>),
}

pub open spec fn expr_v(e: Expr) -> ExprV
    decreases e,
{
    ExprV { kind: kind_v(e.kind), span: e.span, ty: e.ty }
}

pub open spec fn kind_v(k: ExprKind) -> KindV
    decreases k,
{
    match k {
        ExprKind::Int(n) => KindV::Int(n),
        ExprKind::Float(s) => KindV::Float(s@),
        ExprKind::Bool(b) => KindV::Bool(b),
        ExprKind::Str(s) => KindV::Str(s@),
        ExprKind::Var(s) => KindV::Var(s@),
        ExprKind::Unary(op, a) => KindV::Unary(op, Box::new(expr_v(*a))),
        ExprKind::Binary(a, op, b) => KindV::Binary(
            Box::new(expr_v(*a)),
            op,
            Box::new(expr_v(*b)),
        ),
        ExprKind::Call(s, args) => KindV::Call(s@, exprs_v(args@)),
        ExprKind::MethodCall(r, s, args) => KindV::MethodCall(
            Box::new(expr_v(*r)),
            s@,
            exprs_v(args@),
        ),
        ExprKind::ArrayLit(es) => KindV::ArrayLit(exprs_v(es@)),
        ExprKind::Index(a, b) => KindV::Index(Box::new(expr_v(*a)), Box::new(expr_v(*b))),
        ExprKind::Field(a, s) => KindV::Field(Box::new(expr_v(*a)), s@),
        ExprKind::EnumInit(e, v, args) => KindV::EnumInit(e, v, exprs_v(args@)),
    }
}

pub open spec fn exprs_v(s: Seq<Expr>) -> Seq<ExprV>
    decreases s,
{
    Seq::new(
        s.len(),
        |i: int|
            if 0 <= i < s.len() {
                expr_v(s[i])
            } else {
                arbitrary()
            },
    )
}

impl Expr {
    pub open spec fn view(&self) -> ExprV {
        expr_v(*self)
    }

    pub fn new(kind: ExprKind, span: Span) -> (e: Self)
        ensures
            e@ == (ExprV { kind: kind_v(kind), span, ty: None }),
            e.kind == kind,
            e.span == span,
            e.ty == None::<Type>,
    {
        Expr { kind, span, ty: None }
    }
}

// ----- statements ---------------------------------------------------------------
#[allow(inconsistent_fields)]
#[derive(Debug, PartialEq)]
pub enum Stmt {
    Let { name: String, ty: Option<Type>, value: Expr, line: usize },
    Assign { name: String, value: Expr, line: usize },
    /// `target[index] = value`
    IndexAssign { target: Expr, index: Expr, value: Expr, line: usize },
    /// `target.field = value`
    FieldAssign { target: Expr, field: String, value: Expr, line: usize },
    Expr(Expr),
    Return { value: Option<Expr>, line: usize },
    If { cond: Expr, then_block: Vec<Stmt>, else_block: Option<Vec<Stmt>> },
    While { cond: Expr, body: Vec<Stmt> },
    /// `for var in range(start, end):` — counts from `start` (inclusive) to
    /// `end` (exclusive). `continue` jumps to the increment, not the test.
    For { var: String, start: Expr, end: Expr, body: Vec<Stmt>, line: usize },
    /// `for var in xs:` — iterates the elements of an array. `var` is a fresh
    /// binding each iteration; heap elements arrive retained (+1).
    ForEach { var: String, iterable: Expr, body: Vec<Stmt>, line: usize },
    /// `match scrutinee:` — one arm runs, chosen by the variant at hand.
    Match { scrutinee: Expr, arms: Vec<MatchArm>, line: usize },
    Break { line: usize },
    Continue { line: usize },
    /// ARC bookkeeping inserted by semantic analysis — never by the parser.
    Retain(String),
    Release(String),
}

pub type Block = Vec<Stmt>;

/// What a match arm accepts.
#[derive(Debug, PartialEq)]
pub enum Pattern {
    /// `_`
    Wildcard,
    /// `Name(a, b)` — binds the payload positionally. `types` is filled in by
    /// semantic analysis; it is empty straight out of the parser.
    Variant { name: String, bindings: Vec<String>, types: Vec<Type> },
}

#[derive(Debug, PartialEq)]
pub struct MatchArm {
    pub pattern: Pattern,
    pub body: Vec<Stmt>,
}

/// A statement as a value of mathematics.
#[allow(inconsistent_fields)]
#[verifier::ext_equal]
pub enum StmtV {
    Let { name: Seq<char>, ty: Option<Type>, value: ExprV, line: usize },
    Assign { name: Seq<char>, value: ExprV, line: usize },
    IndexAssign { target: ExprV, index: ExprV, value: ExprV, line: usize },
    FieldAssign { target: ExprV, field: Seq<char>, value: ExprV, line: usize },
    Expr(ExprV),
    Return { value: Option<ExprV>, line: usize },
    If { cond: ExprV, then_block: Seq<StmtV>, else_block: Option<Seq<StmtV>> },
    While { cond: ExprV, body: Seq<StmtV> },
    For { var: Seq<char>, start: ExprV, end: ExprV, body: Seq<StmtV>, line: usize },
    ForEach { var: Seq<char>, iterable: ExprV, body: Seq<StmtV>, line: usize },
    Match { scrutinee: ExprV, arms: Seq<ArmV>, line: usize },
    Break { line: usize },
    Continue { line: usize },
    Retain(Seq<char>),
    Release(Seq<char>),
}

/// A pattern as a value of mathematics.
#[verifier::ext_equal]
pub enum PatternV {
    Wildcard,
    Variant { name: Seq<char>, bindings: Seq<Seq<char>>, types: Seq<Type> },
}

/// A match arm as a value of mathematics.
#[verifier::ext_equal]
pub struct ArmV {
    pub pattern: PatternV,
    pub body: Seq<StmtV>,
}

/// The texts of a sequence of names.
pub open spec fn names_v(s: Seq<String>) -> Seq<Seq<char>> {
    Seq::new(s.len(), |i: int| s[i]@)
}

pub open spec fn opt_expr_v(e: Option<Expr>) -> Option<ExprV> {
    match e {
        Some(e) => Some(expr_v(e)),
        None => None,
    }
}

pub open spec fn stmt_v(s: Stmt) -> StmtV
    decreases s,
{
    match s {
        Stmt::Let { name, ty, value, line } => StmtV::Let {
            name: name@,
            ty,
            value: expr_v(value),
            line,
        },
        Stmt::Assign { name, value, line } => StmtV::Assign {
            name: name@,
            value: expr_v(value),
            line,
        },
        Stmt::IndexAssign { target, index, value, line } => StmtV::IndexAssign {
            target: expr_v(target),
            index: expr_v(index),
            value: expr_v(value),
            line,
        },
        Stmt::FieldAssign { target, field, value, line } => StmtV::FieldAssign {
            target: expr_v(target),
            field: field@,
            value: expr_v(value),
            line,
        },
        Stmt::Expr(e) => StmtV::Expr(expr_v(e)),
        Stmt::Return { value, line } => StmtV::Return { value: opt_expr_v(value), line },
        Stmt::If { cond, then_block, else_block } => StmtV::If {
            cond: expr_v(cond),
            then_block: block_v(then_block@),
            else_block: match else_block {
                Some(b) => Some(block_v(b@)),
                None => None,
            },
        },
        Stmt::While { cond, body } => StmtV::While { cond: expr_v(cond), body: block_v(body@) },
        Stmt::For { var, start, end, body, line } => StmtV::For {
            var: var@,
            start: expr_v(start),
            end: expr_v(end),
            body: block_v(body@),
            line,
        },
        Stmt::ForEach { var, iterable, body, line } => StmtV::ForEach {
            var: var@,
            iterable: expr_v(iterable),
            body: block_v(body@),
            line,
        },
        Stmt::Match { scrutinee, arms, line } => StmtV::Match {
            scrutinee: expr_v(scrutinee),
            arms: arms_v(arms@),
            line,
        },
        Stmt::Break { line } => StmtV::Break { line },
        Stmt::Continue { line } => StmtV::Continue { line },
        Stmt::Retain(n) => StmtV::Retain(n@),
        Stmt::Release(n) => StmtV::Release(n@),
    }
}

pub open spec fn block_v(s: Seq<Stmt>) -> Seq<StmtV>
    decreases s,
{
    Seq::new(
        s.len(),
        |i: int|
            if 0 <= i < s.len() {
                stmt_v(s[i])
            } else {
                arbitrary()
            },
    )
}

pub open spec fn pattern_v(p: Pattern) -> PatternV {
    match p {
        Pattern::Wildcard => PatternV::Wildcard,
        Pattern::Variant { name, bindings, types } => PatternV::Variant {
            name: name@,
            bindings: names_v(bindings@),
            types: types@,
        },
    }
}

pub open spec fn arm_v(a: MatchArm) -> ArmV
    decreases a,
{
    ArmV { pattern: pattern_v(a.pattern), body: block_v(a.body@) }
}

pub open spec fn arms_v(s: Seq<MatchArm>) -> Seq<ArmV>
    decreases s,
{
    Seq::new(
        s.len(),
        |i: int|
            if 0 <= i < s.len() {
                arm_v(s[i])
            } else {
                arbitrary()
            },
    )
}

impl Stmt {
    pub open spec fn view(&self) -> StmtV {
        stmt_v(*self)
    }
}

impl Pattern {
    pub open spec fn view(&self) -> PatternV {
        pattern_v(*self)
    }
}

impl MatchArm {
    pub open spec fn view(&self) -> ArmV {
        arm_v(*self)
    }
}

// ----- declarations ---------------------------------------------------------------
#[derive(Debug, PartialEq)]
pub struct Param {
    pub name: String,
    pub ty: Type,
}

#[derive(Debug, PartialEq)]
pub struct Function {
    pub name: String,
    /// `Some` for a struct method `fn (p: Point) area():` — the explicit
    /// receiver, which is not part of `params`. Its type must be a struct.
    pub recv: Option<Param>,
    pub params: Vec<Param>,
    pub ret: Type,
    pub body: Vec<Stmt>,
    pub line: usize,
}

/// `extern fn name(t1, t2, ...) -> ret` — a zero-cost C FFI declaration.
/// Lowering declares the symbol to LLVM and the system linker resolves it.
#[derive(Debug, PartialEq)]
pub struct ExternFn {
    pub name: String,
    pub params: Vec<Type>,
    pub varargs: bool,
    pub ret: Type,
    pub line: usize,
}

/// `struct Name:` followed by indented `field: type` lines. Structs are
/// heap-allocated and reference-counted like strings and arrays; releasing
/// the last reference releases any heap-typed fields first.
#[derive(Debug, PartialEq)]
pub struct StructDef {
    pub name: String,
    pub fields: Vec<Param>,
    pub line: usize,
}

/// One alternative of an enum: a name and the types of its payload.
#[derive(Debug, PartialEq)]
pub struct VariantDef {
    pub name: String,
    pub fields: Vec<Type>,
}

/// `enum Name:` followed by indented variant lines: a tagged union.
#[derive(Debug, PartialEq)]
pub struct EnumDef {
    pub name: String,
    pub variants: Vec<VariantDef>,
    pub line: usize,
}

#[derive(Debug, PartialEq)]
pub struct Program {
    pub externs: Vec<ExternFn>,
    pub functions: Vec<Function>,
    pub structs: Vec<StructDef>,
    pub enums: Vec<EnumDef>,
}

#[verifier::ext_equal]
pub struct ParamV {
    pub name: Seq<char>,
    pub ty: Type,
}

#[verifier::ext_equal]
pub struct FunctionV {
    pub name: Seq<char>,
    pub recv: Option<ParamV>,
    pub params: Seq<ParamV>,
    pub ret: Type,
    pub body: Seq<StmtV>,
    pub line: usize,
}

#[verifier::ext_equal]
pub struct ExternV {
    pub name: Seq<char>,
    pub params: Seq<Type>,
    pub varargs: bool,
    pub ret: Type,
    pub line: usize,
}

#[verifier::ext_equal]
pub struct StructV {
    pub name: Seq<char>,
    pub fields: Seq<ParamV>,
    pub line: usize,
}

#[verifier::ext_equal]
pub struct VariantV {
    pub name: Seq<char>,
    pub fields: Seq<Type>,
}

#[verifier::ext_equal]
pub struct EnumV {
    pub name: Seq<char>,
    pub variants: Seq<VariantV>,
    pub line: usize,
}

#[verifier::ext_equal]
pub struct ProgramV {
    pub externs: Seq<ExternV>,
    pub functions: Seq<FunctionV>,
    pub structs: Seq<StructV>,
    pub enums: Seq<EnumV>,
}

impl Param {
    pub open spec fn view(&self) -> ParamV {
        ParamV { name: self.name@, ty: self.ty }
    }
}

pub open spec fn params_v(s: Seq<Param>) -> Seq<ParamV> {
    Seq::new(s.len(), |i: int| s[i]@)
}

impl Function {
    pub open spec fn view(&self) -> FunctionV {
        FunctionV {
            name: self.name@,
            recv: match self.recv {
                Some(p) => Some(p@),
                None => None,
            },
            params: params_v(self.params@),
            ret: self.ret,
            body: block_v(self.body@),
            line: self.line,
        }
    }

    /// The symbol of a method: the struct's name, a dot, the method's name.
    pub open spec fn symbol(struct_name: Seq<char>, method: Seq<char>) -> Seq<char> {
        struct_name + "."@ + method
    }

    /// The mangled symbol name for a method (`Struct.method`), given the
    /// receiver's struct name. Free functions keep their bare name.
    pub fn method_symbol(struct_name: &str, method: &str) -> (s: String)
        ensures
            s@ == Function::symbol(struct_name@, method@),
    {
        cat3(struct_name, ".", method)
    }
}

pub open spec fn functions_v(s: Seq<Function>) -> Seq<FunctionV> {
    Seq::new(s.len(), |i: int| s[i]@)
}

impl ExternFn {
    pub open spec fn view(&self) -> ExternV {
        ExternV {
            name: self.name@,
            params: self.params@,
            varargs: self.varargs,
            ret: self.ret,
            line: self.line,
        }
    }
}

pub open spec fn externs_v(s: Seq<ExternFn>) -> Seq<ExternV> {
    Seq::new(s.len(), |i: int| s[i]@)
}

/// The first field of that name: its position and type.
pub open spec fn field_from(fields: Seq<ParamV>, name: Seq<char>, i: int) -> Option<(int, Type)>
    decreases fields.len() - i,
{
    if i < 0 || i >= fields.len() {
        None
    } else if fields[i].name == name {
        Some((i, fields[i].ty))
    } else {
        field_from(fields, name, i + 1)
    }
}

impl StructV {
    /// The first field of that name: its position and type.
    pub open spec fn field_of(self, name: Seq<char>) -> Option<(int, Type)> {
        field_from(self.fields, name, 0)
    }
}

impl StructDef {
    pub open spec fn view(&self) -> StructV {
        StructV { name: self.name@, fields: params_v(self.fields@), line: self.line }
    }

    /// The position and type of the field called `name`.
    pub fn field(&self, name: &str) -> (f: Option<(usize, Type)>)
        ensures
            match f {
                Some((i, ty)) => self@.field_of(name@) == Some((i as int, ty)) && i
                    < self.fields@.len() && self.fields@[i as int].ty == ty,
                None => self@.field_of(name@) is None,
            },
    {
        let mut i: usize = 0;
        while i < self.fields.len()
            invariant
                i <= self.fields@.len(),
                self@.field_of(name@) == field_from(self@.fields, name@, i as int),
            decreases self.fields@.len() - i,
        {
            if same(self.fields[i].name.as_str(), name) {
                return Some((i, self.fields[i].ty));
            }
            i = i + 1;
        }
        None
    }
}

pub open spec fn structs_v(s: Seq<StructDef>) -> Seq<StructV> {
    Seq::new(s.len(), |i: int| s[i]@)
}

impl VariantDef {
    pub open spec fn view(&self) -> VariantV {
        VariantV { name: self.name@, fields: self.fields@ }
    }
}

pub open spec fn variants_v(s: Seq<VariantDef>) -> Seq<VariantV> {
    Seq::new(s.len(), |i: int| s[i]@)
}

/// The position of the first variant of that name.
pub open spec fn variant_from(variants: Seq<VariantV>, name: Seq<char>, i: int) -> Option<int>
    decreases variants.len() - i,
{
    if i < 0 || i >= variants.len() {
        None
    } else if variants[i].name == name {
        Some(i)
    } else {
        variant_from(variants, name, i + 1)
    }
}

impl EnumV {
    /// The position of the first variant of that name.
    pub open spec fn variant_of(self, name: Seq<char>) -> Option<int> {
        variant_from(self.variants, name, 0)
    }
}

impl EnumDef {
    pub open spec fn view(&self) -> EnumV {
        EnumV { name: self.name@, variants: variants_v(self.variants@), line: self.line }
    }

    /// The position of the variant called `name`.
    pub fn variant(&self, name: &str) -> (v: Option<usize>)
        ensures
            match v {
                Some(i) => self@.variant_of(name@) == Some(i as int) && i < self.variants@.len(),
                None => self@.variant_of(name@) is None,
            },
    {
        let mut i: usize = 0;
        while i < self.variants.len()
            invariant
                i <= self.variants@.len(),
                self@.variant_of(name@) == variant_from(self@.variants, name@, i as int),
            decreases self.variants@.len() - i,
        {
            if same(self.variants[i].name.as_str(), name) {
                return Some(i);
            }
            i = i + 1;
        }
        None
    }
}

pub open spec fn enums_v(s: Seq<EnumDef>) -> Seq<EnumV> {
    Seq::new(s.len(), |i: int| s[i]@)
}

impl Program {
    pub open spec fn view(&self) -> ProgramV {
        ProgramV {
            externs: externs_v(self.externs@),
            functions: functions_v(self.functions@),
            structs: structs_v(self.structs@),
            enums: enums_v(self.enums@),
        }
    }

    /// The program without declarations.
    pub open spec fn empty() -> ProgramV {
        ProgramV {
            externs: Seq::empty(),
            functions: Seq::empty(),
            structs: Seq::empty(),
            enums: Seq::empty(),
        }
    }
}

impl Default for Program {
    fn default() -> (p: Self)
        ensures
            p@ == Program::empty(),
    {
        let p = Program {
            externs: Vec::new(),
            functions: Vec::new(),
            structs: Vec::new(),
            enums: Vec::new(),
        };
        assert(p@ =~= Program::empty());
        p
    }
}

} // verus!
