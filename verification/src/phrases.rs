//! Types, statements and functions are read back from the tokens that they are
//! written with.
use vstd::prelude::*;
use crate::agreement::written_expr;
use crate::ast::{
    ArmV, EnumV, ExprV, ExternV, FunctionV, KindV, ParamV, PatternV, StmtV, StructV, Type, VariantV,
};
use crate::diag::{Fault, Span};
use crate::grammar::{
    arm_body_at, arms_at, block_at, enum_at, expr_at, expr_then, extern_at, extern_param_at,
    extern_params_at, fields_at, find_name, for_at, for_stmt, function_at, has_param, header_at,
    if_at, let_at, match_at, names_at, param_at, params_at, pattern_at, return_at, return_type_at,
    scalar_type, simple_at, stmt_at, stmts_at, struct_at, type_at, types_at, variant_at,
    variants_at, Input,
};
use crate::lexer::TokV;
use crate::reading::{
    all_same, law_expressions_are_read_back, lemma_first, lemma_found, lemma_split, same, stand,
    tokens,
};

verus! {

// ----- types -------------------------------------------------------------------------------------
/// The name of a type that is no array.
pub open spec fn type_word(c: Input, t: Type) -> Seq<char> {
    match t {
        Type::Int => "int"@,
        Type::Float => "float"@,
        Type::Bool => "bool"@,
        Type::Str => "str"@,
        Type::Struct(id) => c.structs[id as int],
        Type::Enum(id) => c.enums[id as int],
        _ => Seq::empty(),
    }
}

/// Whether a name is that of a scalar type.
pub open spec fn scalar_word(s: Seq<char>) -> bool {
    s == "int"@ || s == "float"@ || s == "bool"@ || s == "str"@
}

/// Whether a type can be written: its declaration is the first of its name, and
/// nothing hides it.
pub open spec fn writable(c: Input, t: Type) -> bool
    decreases depth(t),
{
    match t {
        Type::Int | Type::Float | Type::Bool | Type::Str => true,
        Type::Struct(id) => (id as int) < c.structs.len() && !scalar_word(c.structs[id as int])
            && !c.structs.take(id as int).contains(c.structs[id as int]),
        Type::Enum(id) => (id as int) < c.enums.len() && !scalar_word(c.enums[id as int])
            && !c.structs.contains(c.enums[id as int]) && !c.enums.take(id as int).contains(
            c.enums[id as int],
        ),
        Type::Array(_, dims) => dims >= 1 && writable(c, t.elem()->0),
        Type::Unit => false,
    }
}

/// How many dimensions a type has.
pub open spec fn depth(t: Type) -> nat {
    match t {
        Type::Array(_, dims) => dims as nat,
        _ => 0,
    }
}

/// The tokens of a type: its name, or that of its elements in brackets.
pub open spec fn type_tokens(c: Input, t: Type) -> Seq<TokV>
    decreases depth(t),
{
    match t {
        Type::Array(_, dims) => if dims >= 1 {
            seq![TokV::LBracket] + type_tokens(c, t.elem()->0) + seq![TokV::RBracket]
        } else {
            Seq::empty()
        },
        _ => seq![TokV::Ident(type_word(c, t))],
    }
}

proof fn lemma_find(names: Seq<Seq<char>>, name: Seq<char>, i: int, k: int)
    requires
        0 <= i <= k < names.len(),
        names[k] == name,
        forall|j: int| i <= j < k ==> names[j] != name,
    ensures
        find_name(names, name, i) == Some(k),
    decreases k - i,
{
    if i < k {
        lemma_find(names, name, i + 1, k);
    }
}

proof fn lemma_find_none(names: Seq<Seq<char>>, name: Seq<char>, i: int)
    requires
        0 <= i <= names.len(),
        !names.contains(name),
    ensures
        find_name(names, name, i) is None,
    decreases names.len() - i,
{
    if i < names.len() {
        assert(names.contains(names[i]));
        lemma_find_none(names, name, i + 1);
    }
}

/// A type that is written is read back.
pub proof fn law_types_are_read_back(c: Input, p: int, t: Type)
    requires
        writable(c, t),
        stand(c, p, type_tokens(c, t)),
    ensures
        type_at(c, p) == Ok::<(Type, int), Fault>((t, p + type_tokens(c, t).len())),
        type_tokens(c, t).len() > 0,
        type_tokens(c, t)[0] is Ident || type_tokens(c, t)[0] is LBracket,
    decreases depth(t),
{
    lemma_scalars();
    match t {
        Type::Array(base, dims) => {
            let elem = t.elem()->0;
            let inner = type_tokens(c, elem);
            let (open, close) = (seq![TokV::LBracket], seq![TokV::RBracket]);
            lemma_split(c, p, open + inner, close);
            lemma_split(c, p, open, inner);
            lemma_found(c, p, open, 0);
            lemma_found(c, p + 1 + inner.len(), close, 0);
            law_types_are_read_back(c, p + 1, elem);
            assert(Type::arrays_of(elem) == Some(t));
        },
        Type::Struct(id) => {
            let name = c.structs[id as int];
            lemma_found(c, p, type_tokens(c, t), 0);
            assert forall|j: int| 0 <= j < id as int implies c.structs[j] != name by {
                assert(c.structs.take(id as int).contains(c.structs.take(id as int)[j]));
            }
            lemma_find(c.structs, name, 0, id as int);
        },
        Type::Enum(id) => {
            let name = c.enums[id as int];
            lemma_found(c, p, type_tokens(c, t), 0);
            assert forall|j: int| 0 <= j < id as int implies c.enums[j] != name by {
                assert(c.enums.take(id as int).contains(c.enums.take(id as int)[j]));
            }
            lemma_find_none(c.structs, name, 0);
            lemma_find(c.enums, name, 0, id as int);
        },
        _ => {
            lemma_found(c, p, type_tokens(c, t), 0);
        },
    }
}

proof fn lemma_scalars()
    ensures
        scalar_type("int"@) == Some(Type::Int),
        scalar_type("float"@) == Some(Type::Float),
        scalar_type("bool"@) == Some(Type::Bool),
        scalar_type("str"@) == Some(Type::Str),
{
    reveal_strlit("int");
    reveal_strlit("float");
    reveal_strlit("bool");
    reveal_strlit("str");
    assert("int"@[0] == 'i' && "float"@[0] == 'f' && "bool"@[0] == 'b' && "str"@[0] == 's');
}

// ----- statements --------------------------------------------------------------------------------
/// The tokens of a block: a line of its own for each statement, further in.
pub open spec fn block_tokens(c: Input, b: Seq<StmtV>) -> Seq<TokV>
    decreases b, b.len() + 1,
{
    seq![TokV::Newline, TokV::Indent] + lines_from(c, b, 0) + seq![TokV::Dedent]
}

/// The tokens of the statements from the `i`th on.
pub open spec fn lines_from(c: Input, b: Seq<StmtV>, i: int) -> Seq<TokV>
    decreases b, b.len() - i,
{
    if i < 0 || i >= b.len() {
        Seq::empty()
    } else {
        phrase(c, b[i]) + lines_from(c, b, i + 1)
    }
}

/// The tokens of names with commas between them, from the `i`th on.
pub open spec fn name_list(names: Seq<Seq<char>>, i: int) -> Seq<TokV>
    decreases names.len() - i,
{
    if i < 0 || i >= names.len() {
        Seq::empty()
    } else if i + 1 == names.len() {
        seq![TokV::Ident(names[i])]
    } else {
        seq![TokV::Ident(names[i]), TokV::Comma] + name_list(names, i + 1)
    }
}

/// The tokens of a pattern.
pub open spec fn pattern_tokens(pattern: PatternV) -> Seq<TokV> {
    match pattern {
        PatternV::Wildcard => seq![TokV::Ident("_"@)],
        PatternV::Variant { name, bindings, .. } => seq![TokV::Ident(name), TokV::LParen]
            + name_list(bindings, 0) + seq![TokV::RParen],
    }
}

/// The tokens of arms from the `i`th on.
pub open spec fn arm_tokens(c: Input, arms: Seq<ArmV>, i: int) -> Seq<TokV>
    decreases arms, arms.len() - i,
{
    if i < 0 || i >= arms.len() {
        Seq::empty()
    } else {
        pattern_tokens(arms[i].pattern) + seq![TokV::Colon] + one_arm(c, arms[i]) + arm_tokens(
            c,
            arms,
            i + 1,
        )
    }
}

/// The tokens of the body of an arm.
pub open spec fn one_arm(c: Input, arm: ArmV) -> Seq<TokV>
    decreases arm, 0nat,
{
    block_tokens(c, arm.body)
}

/// An assignment: a target, a sign, a value.
pub open spec fn stores(target: Seq<TokV>, value: ExprV) -> Seq<TokV> {
    target + seq![TokV::Assign] + tokens(value, 7) + seq![TokV::Newline]
}

/// A node round others.
pub open spec fn around(kind: KindV) -> ExprV {
    ExprV { kind, span: Span { line: 0, col: 0, len: 0 }, ty: None }
}

/// The call that a counting loop runs over.
pub open spec fn range(start: ExprV, end: ExprV) -> ExprV {
    around(KindV::Call("range"@, seq![start, end]))
}

/// What an assignment writes to.
pub open spec fn place_of(s: StmtV) -> ExprV {
    match s {
        StmtV::Assign { name, .. } => around(KindV::Var(name)),
        StmtV::IndexAssign { target, index, .. } => around(
            KindV::Index(Box::new(target), Box::new(index)),
        ),
        StmtV::FieldAssign { target, field, .. } => around(KindV::Field(Box::new(target), field)),
        _ => around(KindV::Bool(false)),
    }
}

/// The tokens of a statement.
pub open spec fn phrase(c: Input, s: StmtV) -> Seq<TokV>
    decreases s, 0nat,
{
    match s {
        StmtV::Let { name, ty: None, value, .. } => seq![TokV::Let] + stores(
            seq![TokV::Ident(name)],
            value,
        ),
        StmtV::Let { name, ty: Some(t), value, .. } => seq![TokV::Let] + stores(
            seq![TokV::Ident(name), TokV::Colon] + type_tokens(c, t),
            value,
        ),
        StmtV::Assign { value, .. } => stores(tokens(place_of(s), 7), value),
        StmtV::IndexAssign { value, .. } => stores(tokens(place_of(s), 7), value),
        StmtV::FieldAssign { value, .. } => stores(tokens(place_of(s), 7), value),
        StmtV::Expr(e) => tokens(e, 7) + seq![TokV::Newline],
        StmtV::Return { value: None, .. } => seq![TokV::Return, TokV::Newline],
        StmtV::Return { value: Some(e), .. } => seq![TokV::Return] + tokens(e, 7) + seq![
            TokV::Newline,
        ],
        StmtV::If { cond, then_block, else_block: None } => seq![TokV::If] + tokens(cond, 7)
            + seq![TokV::Colon] + block_tokens(c, then_block),
        StmtV::If { cond, then_block, else_block: Some(b) } => seq![TokV::If] + tokens(cond, 7)
            + seq![TokV::Colon] + block_tokens(c, then_block) + seq![TokV::Else, TokV::Colon]
            + block_tokens(c, b),
        StmtV::While { cond, body } => seq![TokV::While] + tokens(cond, 7) + seq![TokV::Colon]
            + block_tokens(c, body),
        StmtV::For { var, start, end, body, .. } => seq![TokV::For, TokV::Ident(var), TokV::In]
            + tokens(range(start, end), 7) + seq![TokV::Colon] + block_tokens(c, body),
        StmtV::ForEach { var, iterable, body, .. } => seq![
            TokV::For,
            TokV::Ident(var),
            TokV::In,
        ] + tokens(iterable, 7) + seq![TokV::Colon] + block_tokens(c, body),
        StmtV::Match { scrutinee, arms, .. } => seq![TokV::Match] + tokens(scrutinee, 7) + seq![
            TokV::Colon,
            TokV::Newline,
            TokV::Indent,
        ] + arm_tokens(c, arms, 0) + seq![TokV::Dedent],
        StmtV::Break { .. } => seq![TokV::Break, TokV::Newline],
        StmtV::Continue { .. } => seq![TokV::Continue, TokV::Newline],
        StmtV::Retain(_) | StmtV::Release(_) => Seq::empty(),
    }
}

/// Whether a statement can be written: the types and expressions in it can, what
/// stands alone or is assigned to begins with a name, and no block is empty.
pub open spec fn phrased(c: Input, s: StmtV) -> bool
    decreases s, 0nat,
{
    match s {
        StmtV::Let { ty, value, .. } => written_expr(value) && (ty matches Some(t) ==> writable(
            c,
            t,
        )),
        StmtV::Assign { value, .. } => written_expr(value),
        StmtV::IndexAssign { target, index, value, .. } => written_expr(target) && written_expr(
            index,
        ) && written_expr(value) && tokens(place_of(s), 7)[0] is Ident,
        StmtV::FieldAssign { target, value, .. } => written_expr(target) && written_expr(value)
            && tokens(place_of(s), 7)[0] is Ident,
        StmtV::Expr(e) => written_expr(e) && tokens(e, 7)[0] is Ident,
        StmtV::Return { value, .. } => value matches Some(e) ==> written_expr(e),
        StmtV::If { cond, then_block, else_block } => written_expr(cond) && all_phrased(
            c,
            then_block,
        ) && (else_block matches Some(b) ==> all_phrased(c, b)),
        StmtV::While { cond, body } => written_expr(cond) && all_phrased(c, body),
        StmtV::For { start, end, body, .. } => written_expr(start) && written_expr(end)
            && all_phrased(c, body),
        StmtV::ForEach { iterable, body, .. } => written_expr(iterable) && all_phrased(c, body)
            && !(iterable.kind matches KindV::Call(name, _) && name == "range"@),
        StmtV::Match { scrutinee, arms, .. } => written_expr(scrutinee) && arms.len() > 0
            && arms_phrased(c, arms),
        StmtV::Break { .. } | StmtV::Continue { .. } => true,
        StmtV::Retain(_) | StmtV::Release(_) => false,
    }
}

/// Whether the statements of a block can be written.
pub open spec fn all_phrased(c: Input, b: Seq<StmtV>) -> bool
    decreases b, 0nat,
{
    b.len() > 0 && forall|i: int| 0 <= i < b.len() ==> phrased(c, #[trigger] b[i])
}

/// Whether arms can be written; `_` names no variant.
pub open spec fn arms_phrased(c: Input, arms: Seq<ArmV>) -> bool
    decreases arms, 0nat,
{
    forall|i: int| 0 <= i < arms.len() ==> arm_phrased(c, #[trigger] arms[i])
}

pub open spec fn arm_phrased(c: Input, arm: ArmV) -> bool
    decreases arm, 0nat,
{
    all_phrased(c, arm.body) && (arm.pattern matches PatternV::Variant { name, .. } ==> name
        != "_"@)
}

/// Whether two statements say the same, on whatever lines.
pub open spec fn alike(a: StmtV, b: StmtV) -> bool
    decreases a, 0nat,
{
    match (a, b) {
        (
            StmtV::Let { name: n, ty: t, value: v, .. },
            StmtV::Let { name: m, ty: u, value: w, .. },
        ) => n == m && t == u && same(v, w),
        (
            StmtV::Assign { name: n, value: v, .. },
            StmtV::Assign { name: m, value: w, .. },
        ) => n == m && same(v, w),
        (
            StmtV::IndexAssign { target: x, index: i, value: v, .. },
            StmtV::IndexAssign { target: y, index: j, value: w, .. },
        ) => same(x, y) && same(i, j) && same(v, w),
        (
            StmtV::FieldAssign { target: x, field: n, value: v, .. },
            StmtV::FieldAssign { target: y, field: m, value: w, .. },
        ) => same(x, y) && n == m && same(v, w),
        (StmtV::Expr(v), StmtV::Expr(w)) => same(v, w),
        (
            StmtV::Return { value: Some(v), .. },
            StmtV::Return { value: Some(w), .. },
        ) => same(v, w),
        (StmtV::Return { value: None, .. }, StmtV::Return { value: None, .. }) => true,
        (
            StmtV::If { cond: v, then_block: x, else_block: None },
            StmtV::If { cond: w, then_block: y, else_block: None },
        ) => same(v, w) && blocks_alike(x, y),
        (
            StmtV::If { cond: v, then_block: x, else_block: Some(p) },
            StmtV::If { cond: w, then_block: y, else_block: Some(q) },
        ) => same(v, w) && blocks_alike(x, y) && blocks_alike(p, q),
        (StmtV::While { cond: v, body: x }, StmtV::While { cond: w, body: y }) => same(v, w)
            && blocks_alike(x, y),
        (
            StmtV::For { var: n, start: v, end: p, body: x, .. },
            StmtV::For { var: m, start: w, end: q, body: y, .. },
        ) => n == m && same(v, w) && same(p, q) && blocks_alike(x, y),
        (
            StmtV::ForEach { var: n, iterable: v, body: x, .. },
            StmtV::ForEach { var: m, iterable: w, body: y, .. },
        ) => n == m && same(v, w) && blocks_alike(x, y),
        (
            StmtV::Match { scrutinee: v, arms: x, .. },
            StmtV::Match { scrutinee: w, arms: y, .. },
        ) => same(v, w) && arms_alike(x, y),
        (StmtV::Break { .. }, StmtV::Break { .. }) => true,
        (StmtV::Continue { .. }, StmtV::Continue { .. }) => true,
        _ => false,
    }
}

pub open spec fn blocks_alike(a: Seq<StmtV>, b: Seq<StmtV>) -> bool
    decreases a, 0nat,
{
    a.len() == b.len() && forall|i: int| 0 <= i < a.len() ==> alike(#[trigger] a[i], b[i])
}

pub open spec fn arms_alike(a: Seq<ArmV>, b: Seq<ArmV>) -> bool
    decreases a, 0nat,
{
    a.len() == b.len() && forall|i: int| 0 <= i < a.len() ==> arm_alike(#[trigger] a[i], b[i])
}

pub open spec fn arm_alike(a: ArmV, b: ArmV) -> bool
    decreases a, 0nat,
{
    &&& match (a.pattern, b.pattern) {
        (PatternV::Wildcard, PatternV::Wildcard) => true,
        (
            PatternV::Variant { name: n, bindings: x, .. },
            PatternV::Variant { name: m, bindings: y, .. },
        ) => n == m && x == y,
        _ => false,
    }
    &&& blocks_alike(a.body, b.body)
}

// ----- reading them ------------------------------------------------------------------------------
/// An expression with a token behind it that ends it is read.
proof fn lemma_then(c: Input, p: int, e: ExprV, k: TokV) -> (found: ExprV)
    requires
        written_expr(e),
        stand(c, p, tokens(e, 7) + seq![k]),
        k == TokV::Newline || k == TokV::Colon || k == TokV::Assign,
    ensures
        same(found, e),
        expr_at(c, p, 7) == Ok::<(ExprV, int), Fault>((found, p + tokens(e, 7).len())),
        expr_then(c, p, k) == Ok::<(ExprV, int), Fault>((found, p + tokens(e, 7).len() + 1)),
        c.at(p + tokens(e, 7).len()) == k,
        tokens(e, 7).len() > 0,
        c.at(p) == tokens(e, 7)[0],
        p + tokens(e, 7).len() < c.toks.len(),
{
    lemma_split(c, p, tokens(e, 7), seq![k]);
    lemma_found(c, p + tokens(e, 7).len(), seq![k], 0);
    lemma_first(e, 7);
    lemma_found(c, p, tokens(e, 7), 0);
    law_expressions_are_read_back(c, p, e);
    expr_at(c, p, 7)->Ok_0.0
}

proof fn lemma_let_read(c: Input, p: int, s: StmtV) -> (found: StmtV)
    requires
        s is Let,
        phrased(c, s),
        stand(c, p, phrase(c, s)),
    ensures
        alike(found, s),
        stmt_at(c, p) == Ok::<(StmtV, int), Fault>((found, p + phrase(c, s).len())),
{
    if let StmtV::Let { name, ty, value, line } = s {
        let back = tokens(value, 7) + seq![TokV::Newline];
        let front = match ty {
            None => seq![TokV::Let, TokV::Ident(name), TokV::Assign],
            Some(t) => seq![TokV::Let, TokV::Ident(name), TokV::Colon] + type_tokens(c, t) + seq![
                TokV::Assign,
            ],
        };
        assert(phrase(c, s) =~= front + back);
        lemma_split(c, p, front, back);
        lemma_found(c, p, front, 0);
        lemma_found(c, p, front, 1);
        lemma_found(c, p, front, 2);
        if let Some(t) = ty {
            let ts = type_tokens(c, t);
            let head = seq![TokV::Let, TokV::Ident(name), TokV::Colon];
            lemma_split(c, p, head + ts, seq![TokV::Assign]);
            lemma_split(c, p, head, ts);
            law_types_are_read_back(c, p + 3, t);
            lemma_found(c, p + 3 + ts.len(), seq![TokV::Assign], 0);
        }
        let v = lemma_then(c, p + front.len(), value, TokV::Newline);
        let found = StmtV::Let { name, ty, value: v, line: c.line(p) };
        assert(let_at(c, p) == Ok::<(StmtV, int), Fault>((found, p + phrase(c, s).len())));
        found
    } else {
        s
    }
}

proof fn lemma_store_read(c: Input, p: int, s: StmtV) -> (found: StmtV)
    requires
        s is Assign || s is IndexAssign || s is FieldAssign,
        phrased(c, s),
        stand(c, p, phrase(c, s)),
    ensures
        alike(found, s),
        stmt_at(c, p) == Ok::<(StmtV, int), Fault>((found, p + phrase(c, s).len())),
{
    let place = place_of(s);
    let value = match s {
        StmtV::Assign { value, .. } => value,
        StmtV::IndexAssign { value, .. } => value,
        StmtV::FieldAssign { value, .. } => value,
        _ => place,
    };
    let front = tokens(place, 7) + seq![TokV::Assign];
    let back = tokens(value, 7) + seq![TokV::Newline];
    assert(phrase(c, s) =~= front + back);
    lemma_split(c, p, front, back);
    assert(crate::agreement::written_kind(place.kind));
    assert(written_expr(place));
    let to = lemma_then(c, p, place, TokV::Assign);
    let v = lemma_then(c, p + front.len(), value, TokV::Newline);
    let line = c.line(p);
    let end = p + phrase(c, s).len();
    assert(c.at(p) is Ident);
    match to.kind {
        KindV::Var(name) => {
            let found = StmtV::Assign { name, value: v, line };
            assert(simple_at(c, p) == Ok::<(StmtV, int), Fault>((found, end)));
            found
        },
        KindV::Index(target, index) => {
            let found = StmtV::IndexAssign { target: *target, index: *index, value: v, line };
            assert(simple_at(c, p) == Ok::<(StmtV, int), Fault>((found, end)));
            found
        },
        KindV::Field(target, field) => {
            let found = StmtV::FieldAssign { target: *target, field, value: v, line };
            assert(simple_at(c, p) == Ok::<(StmtV, int), Fault>((found, end)));
            found
        },
        _ => s,
    }
}

/// Where a statement stands, it is read.
proof fn lemma_phrase(c: Input, p: int, s: StmtV) -> (found: StmtV)
    requires
        phrased(c, s),
        stand(c, p, phrase(c, s)),
        s is If ==> p + phrase(c, s).len() < c.toks.len() && c.at(p + phrase(c, s).len())
            != TokV::Elif && c.at(p + phrase(c, s).len()) != TokV::Else,
    ensures
        alike(found, s),
        stmt_at(c, p) == Ok::<(StmtV, int), Fault>((found, p + phrase(c, s).len())),
    decreases s, 1nat,
{
    let all = phrase(c, s);
    let end = p + all.len();
    let line = c.line(p);
    match s {
        StmtV::Let { .. } => lemma_let_read(c, p, s),
        StmtV::Assign { .. } | StmtV::IndexAssign { .. } | StmtV::FieldAssign { .. } => {
            lemma_store_read(c, p, s)
        },
        StmtV::Expr(e) => {
            let v = lemma_then(c, p, e, TokV::Newline);
            let found = StmtV::Expr(v);
            assert(simple_at(c, p) == Ok::<(StmtV, int), Fault>((found, end)));
            found
        },
        StmtV::Return { value: None, .. } => {
            lemma_found(c, p, all, 0);
            lemma_found(c, p, all, 1);
            StmtV::Return { value: None, line }
        },
        StmtV::Return { value: Some(e), .. } => {
            let back = tokens(e, 7) + seq![TokV::Newline];
            assert(all =~= seq![TokV::Return] + back);
            lemma_split(c, p, seq![TokV::Return], back);
            lemma_found(c, p, seq![TokV::Return], 0);
            let v = lemma_then(c, p + 1, e, TokV::Newline);
            lemma_begins(e);
            let found = StmtV::Return { value: Some(v), line };
            assert(return_at(c, p) == Ok::<(StmtV, int), Fault>((found, end)));
            found
        },
        StmtV::If { .. } => lemma_if(c, p, s),
        StmtV::While { .. } => lemma_while(c, p, s),
        StmtV::For { .. } | StmtV::ForEach { .. } => lemma_each(c, p, s),
        StmtV::Match { .. } => lemma_match(c, p, s),
        _ => {
            lemma_found(c, p, all, 0);
            lemma_found(c, p, all, 1);
            if s is Break {
                StmtV::Break { line }
            } else {
                StmtV::Continue { line }
            }
        },
    }
}

proof fn lemma_while(c: Input, p: int, s: StmtV) -> (found: StmtV)
    requires
        s is While,
        phrased(c, s),
        stand(c, p, phrase(c, s)),
    ensures
        alike(found, s),
        stmt_at(c, p) == Ok::<(StmtV, int), Fault>((found, p + phrase(c, s).len())),
    decreases s, 0nat,
{
    let all = phrase(c, s);
    let end = p + all.len();
    let line = c.line(p);
    if let StmtV::While { cond, body } = s {
        let front = tokens(cond, 7) + seq![TokV::Colon];
        let back = block_tokens(c, body);
        assert(all =~= seq![TokV::While] + (front + back));
        lemma_split(c, p, seq![TokV::While], front + back);
        lemma_found(c, p, seq![TokV::While], 0);
        lemma_split(c, p + 1, front, back);
        let v = lemma_then(c, p + 1, cond, TokV::Colon);
        let b = lemma_block(c, p + 1 + front.len(), body);
        StmtV::While { cond: v, body: b }
    } else {
        s
    }
}

proof fn lemma_each(c: Input, p: int, s: StmtV) -> (found: StmtV)
    requires
        s is For || s is ForEach,
        phrased(c, s),
        stand(c, p, phrase(c, s)),
    ensures
        alike(found, s),
        stmt_at(c, p) == Ok::<(StmtV, int), Fault>((found, p + phrase(c, s).len())),
    decreases s, 0nat,
{
    let all = phrase(c, s);
    let end = p + all.len();
    let line = c.line(p);
    match s {
        StmtV::For { var, start, end: bound, body, .. } => {
            let call = range(start, bound);
            assert(crate::agreement::written_kind(call.kind));
            let (v, b) = lemma_loop(c, p, var, call, body);
            let found = StmtV::For {
                var,
                start: v.kind->Call_1[0],
                end: v.kind->Call_1[1],
                body: b,
                line,
            };
            assert(all_same(v.kind->Call_1, seq![start, bound]));
            assert(same(v.kind->Call_1[0], start));
            assert(same(v.kind->Call_1[1], bound));
            found
        },
        StmtV::ForEach { var, iterable, body, .. } => {
            let (v, b) = lemma_loop(c, p, var, iterable, body);
            StmtV::ForEach { var, iterable: v, body: b, line }
        },
        _ => s,
    }
}

proof fn lemma_match(c: Input, p: int, s: StmtV) -> (found: StmtV)
    requires
        s is Match,
        phrased(c, s),
        stand(c, p, phrase(c, s)),
    ensures
        alike(found, s),
        stmt_at(c, p) == Ok::<(StmtV, int), Fault>((found, p + phrase(c, s).len())),
    decreases s, 0nat,
{
    let all = phrase(c, s);
    let end = p + all.len();
    let line = c.line(p);
    if let StmtV::Match { scrutinee, arms, .. } = s {
        let front = tokens(scrutinee, 7) + seq![TokV::Colon];
        let mid = seq![TokV::Newline, TokV::Indent];
        let back = arm_tokens(c, arms, 0) + seq![TokV::Dedent];
        assert(all =~= seq![TokV::Match] + (front + (mid + back)));
        lemma_split(c, p, seq![TokV::Match], front + (mid + back));
        lemma_found(c, p, seq![TokV::Match], 0);
        lemma_split(c, p + 1, front, mid + back);
        let v = lemma_then(c, p + 1, scrutinee, TokV::Colon);
        let at = p + 1 + front.len();
        lemma_split(c, at, mid, back);
        lemma_found(c, at, mid, 0);
        lemma_found(c, at, mid, 1);
        let found_arms = lemma_arms(c, at + 2, arms, 0, Seq::empty());
        let found = StmtV::Match { scrutinee: v, arms: found_arms, line };
        assert(match_at(c, p) == Ok::<(StmtV, int), Fault>((found, end)));
        found
    } else {
        s
    }
}

/// No expression begins with the end of a line.
proof fn lemma_begins(e: ExprV)
    requires
        written_expr(e),
    ensures
        tokens(e, 7).len() > 0,
        tokens(e, 7)[0] != TokV::Newline,
    decreases e,
{
    lemma_begins_at(e, 7);
}

proof fn lemma_begins_at(e: ExprV, n: nat)
    requires
        written_expr(e),
    ensures
        tokens(e, n).len() > 0,
        tokens(e, n)[0] != TokV::Newline,
    decreases e,
{
    lemma_first(e, n);
    match e.kind {
        KindV::Binary(a, op, b) => {
            if crate::reading::looseness(op) == 4 {
                lemma_begins_at(*a, 3);
            } else {
                lemma_begins_at(*a, crate::reading::looseness(op));
            }
        },
        KindV::MethodCall(r, name, args) => {
            lemma_begins_at(*r, 0);
        },
        KindV::Index(a, i) => {
            lemma_begins_at(*a, 0);
        },
        KindV::Field(a, name) => {
            lemma_begins_at(*a, 0);
        },
        _ => {},
    }
}

proof fn lemma_loop(c: Input, p: int, var: Seq<char>, e: ExprV, body: Seq<StmtV>) -> (found: (
    ExprV,
    Seq<StmtV>,
))
    requires
        written_expr(e),
        all_phrased(c, body),
        stand(
            c,
            p,
            seq![TokV::For, TokV::Ident(var), TokV::In] + tokens(e, 7) + seq![TokV::Colon]
                + block_tokens(c, body),
        ),
    ensures
        same(found.0, e),
        blocks_alike(found.1, body),
        stmt_at(c, p) == (match for_stmt(var, found.0, found.1, c.line(p)) {
            Ok(s) => Ok::<(StmtV, int), Fault>(
                (s, p + 4 + tokens(e, 7).len() + block_tokens(c, body).len()),
            ),
            Err(f) => Err(f),
        }),
    decreases body, body.len() + 3,
{
    let head = seq![TokV::For, TokV::Ident(var), TokV::In];
    let front = tokens(e, 7) + seq![TokV::Colon];
    let back = block_tokens(c, body);
    assert(head + tokens(e, 7) + seq![TokV::Colon] + back =~= head + (front + back));
    lemma_split(c, p, head, front + back);
    lemma_found(c, p, head, 0);
    lemma_found(c, p, head, 1);
    lemma_found(c, p, head, 2);
    lemma_split(c, p + 3, front, back);
    let v = lemma_then(c, p + 3, e, TokV::Colon);
    let b = lemma_block(c, p + 3 + front.len(), body);
    assert(stmt_at(c, p) == for_at(c, p));
    (v, b)
}

proof fn lemma_if(c: Input, p: int, s: StmtV) -> (found: StmtV)
    requires
        s is If,
        phrased(c, s),
        stand(c, p, phrase(c, s)),
        p + phrase(c, s).len() < c.toks.len(),
        c.at(p + phrase(c, s).len()) != TokV::Elif,
        c.at(p + phrase(c, s).len()) != TokV::Else,
    ensures
        alike(found, s),
        stmt_at(c, p) == Ok::<(StmtV, int), Fault>((found, p + phrase(c, s).len())),
    decreases s, 0nat,
{
    if let StmtV::If { cond, then_block, else_block } = s {
        let all = phrase(c, s);
        let end = p + all.len();
        let front = tokens(cond, 7) + seq![TokV::Colon];
        let one = block_tokens(c, then_block);
        let rest = match else_block {
            None => Seq::empty(),
            Some(b) => seq![TokV::Else, TokV::Colon] + block_tokens(c, b),
        };
        assert(all =~= seq![TokV::If] + (front + (one + rest)));
        lemma_split(c, p, seq![TokV::If], front + (one + rest));
        lemma_found(c, p, seq![TokV::If], 0);
        lemma_split(c, p + 1, front, one + rest);
        let v = lemma_then(c, p + 1, cond, TokV::Colon);
        let at = p + 1 + front.len();
        lemma_split(c, at, one, rest);
        let x = lemma_block(c, at, then_block);
        let mid = at + one.len();
        match else_block {
            None => {
                let found = StmtV::If { cond: v, then_block: x, else_block: None };
                assert(mid == end);
                assert(if_at(c, p) == Ok::<(StmtV, int), Fault>((found, end)));
                found
            },
            Some(b) => {
                let two = seq![TokV::Else, TokV::Colon];
                lemma_split(c, mid, two, block_tokens(c, b));
                lemma_found(c, mid, two, 0);
                lemma_found(c, mid, two, 1);
                let y = lemma_block(c, mid + 2, b);
                let found = StmtV::If { cond: v, then_block: x, else_block: Some(y) };
                assert(if_at(c, p) == Ok::<(StmtV, int), Fault>((found, end)));
                found
            },
        }
    } else {
        s
    }
}

/// Where a block stands, it is read.
proof fn lemma_block(c: Input, p: int, b: Seq<StmtV>) -> (found: Seq<StmtV>)
    requires
        all_phrased(c, b),
        stand(c, p, block_tokens(c, b)),
    ensures
        blocks_alike(found, b),
        block_at(c, p) == Ok::<(Seq<StmtV>, int), Fault>((found, p + block_tokens(c, b).len())),
    decreases b, b.len() + 2,
{
    let head = seq![TokV::Newline, TokV::Indent];
    let back = lines_from(c, b, 0) + seq![TokV::Dedent];
    assert(block_tokens(c, b) =~= head + back);
    lemma_split(c, p, head, back);
    lemma_found(c, p, head, 0);
    lemma_found(c, p, head, 1);
    lemma_lines(c, p + 2, b, 0, Seq::empty())
}

/// A statement begins with a token that begins one.
proof fn lemma_phrase_begins(c: Input, s: StmtV)
    requires
        phrased(c, s),
    ensures
        phrase(c, s).len() > 0,
        phrase(c, s)[0] != TokV::Dedent,
        phrase(c, s)[0] != TokV::Eof,
        phrase(c, s)[0] != TokV::Elif,
        phrase(c, s)[0] != TokV::Else,
{
    match s {
        StmtV::Expr(e) => {
            lemma_first(e, 7);
        },
        StmtV::Assign { value, .. } => {
            assert(crate::agreement::written_kind(place_of(s).kind));
            lemma_first(place_of(s), 7);
        },
        StmtV::IndexAssign { value, .. } => {
            assert(crate::agreement::written_kind(place_of(s).kind));
            lemma_first(place_of(s), 7);
        },
        StmtV::FieldAssign { value, .. } => {
            assert(crate::agreement::written_kind(place_of(s).kind));
            lemma_first(place_of(s), 7);
        },
        _ => {},
    }
}

proof fn lemma_lines(c: Input, p: int, b: Seq<StmtV>, i: int, done: Seq<StmtV>) -> (found: Seq<
    StmtV,
>)
    requires
        all_phrased(c, b),
        0 <= i <= b.len(),
        done.len() == i,
        forall|j: int| 0 <= j < i ==> alike(#[trigger] done[j], b[j]),
        stand(c, p, lines_from(c, b, i) + seq![TokV::Dedent]),
    ensures
        blocks_alike(found, b),
        stmts_at(c, p, done) == Ok::<(Seq<StmtV>, int), Fault>(
            (found, p + lines_from(c, b, i).len() + 1),
        ),
    decreases b, b.len() - i,
{
    let close = seq![TokV::Dedent];
    if i == b.len() {
        lemma_split(c, p, lines_from(c, b, i), close);
        lemma_found(c, p, close, 0);
        done
    } else {
        let s = b[i];
        let rest = lines_from(c, b, i + 1) + close;
        assert(lines_from(c, b, i) + close =~= phrase(c, s) + rest);
        lemma_split(c, p, phrase(c, s), rest);
        let mid = p + phrase(c, s).len();
        lemma_phrase_begins(c, s);
        lemma_found(c, p, phrase(c, s), 0);
        lemma_found(c, mid, rest, 0);
        if i + 1 < b.len() {
            lemma_phrase_begins(c, b[i + 1]);
            assert(rest[0] == phrase(c, b[i + 1])[0]);
        } else {
            assert(rest[0] == TokV::Dedent);
        }
        let one = lemma_phrase(c, p, s);
        let found = lemma_lines(c, mid, b, i + 1, done.push(one));
        assert(stmts_at(c, p, done) == stmts_at(c, mid, done.push(one)));
        found
    }
}

proof fn lemma_names(c: Input, p: int, names: Seq<Seq<char>>, i: int, done: Seq<Seq<char>>)
    requires
        0 <= i <= names.len(),
        i == names.len() ==> i == 0,
        done == names.take(i),
        stand(c, p, name_list(names, i) + seq![TokV::RParen]),
    ensures
        names_at(c, p, done) == Ok::<(Seq<Seq<char>>, int), Fault>(
            (names, p + name_list(names, i).len() + 1),
        ),
    decreases names.len() - i,
{
    let close = seq![TokV::RParen];
    let ts = name_list(names, i);
    lemma_split(c, p, ts, close);
    lemma_found(c, p + ts.len(), close, 0);
    if i == names.len() {
        assert(names.take(i) =~= names);
    } else {
        lemma_found(c, p, ts, 0);
        assert(done.push(names[i]) =~= names.take(i + 1));
        if i + 1 == names.len() {
            assert(names.take(i + 1) =~= names);
        } else {
            let head = seq![TokV::Ident(names[i]), TokV::Comma];
            let rest = name_list(names, i + 1) + close;
            assert(ts + close =~= head + rest);
            lemma_split(c, p, head, rest);
            lemma_found(c, p, head, 1);
            lemma_names(c, p + 2, names, i + 1, done.push(names[i]));
        }
    }
}

proof fn lemma_pattern(c: Input, p: int, pattern: PatternV) -> (found: PatternV)
    requires
        pattern matches PatternV::Variant { name, .. } ==> name != "_"@,
        stand(c, p, pattern_tokens(pattern) + seq![TokV::Colon]),
    ensures
        match (found, pattern) {
            (PatternV::Wildcard, PatternV::Wildcard) => true,
            (
                PatternV::Variant { name: n, bindings: x, .. },
                PatternV::Variant { name: m, bindings: y, .. },
            ) => n == m && x == y,
            _ => false,
        },
        pattern_at(c, p) == Ok::<(PatternV, int), Fault>(
            (found, p + pattern_tokens(pattern).len()),
        ),
        c.at(p) is Ident,
        c.at(p + pattern_tokens(pattern).len()) == TokV::Colon,
{
    let ts = pattern_tokens(pattern);
    lemma_split(c, p, ts, seq![TokV::Colon]);
    lemma_found(c, p + ts.len(), seq![TokV::Colon], 0);
    lemma_found(c, p, ts, 0);
    match pattern {
        PatternV::Wildcard => pattern,
        PatternV::Variant { name, bindings, types } => {
            let head = seq![TokV::Ident(name), TokV::LParen];
            let back = name_list(bindings, 0) + seq![TokV::RParen];
            assert(ts =~= head + back);
            lemma_split(c, p, head, back);
            lemma_found(c, p, head, 1);
            assert(bindings.take(0) =~= Seq::empty());
            lemma_names(c, p + 2, bindings, 0, Seq::empty());
            PatternV::Variant { name, bindings, types: Seq::empty() }
        },
    }
}

proof fn lemma_arms(c: Input, p: int, arms: Seq<ArmV>, i: int, done: Seq<ArmV>)
    -> (found: Seq<ArmV>)
    requires
        arms.len() > 0,
        arms_phrased(c, arms),
        0 <= i <= arms.len(),
        done.len() == i,
        forall|j: int| 0 <= j < i ==> arm_alike(#[trigger] done[j], arms[j]),
        stand(c, p, arm_tokens(c, arms, i) + seq![TokV::Dedent]),
    ensures
        arms_alike(found, arms),
        arms_at(c, p, done) == Ok::<(Seq<ArmV>, int), Fault>(
            (found, p + arm_tokens(c, arms, i).len() + 1),
        ),
    decreases arms, arms.len() - i,
{
    let close = seq![TokV::Dedent];
    if i == arms.len() {
        lemma_split(c, p, arm_tokens(c, arms, i), close);
        lemma_found(c, p, close, 0);
        done
    } else {
        let arm = arms[i];
        let head = pattern_tokens(arm.pattern) + seq![TokV::Colon];
        let body = block_tokens(c, arm.body);
        let rest = arm_tokens(c, arms, i + 1) + close;
        assert(arm_phrased(c, arm));
        assert(one_arm(c, arm) == body);
        assert(arm_tokens(c, arms, i) + close =~= head + (body + rest));
        lemma_split(c, p, head, body + rest);
        let mid = p + head.len();
        lemma_split(c, mid, body, rest);
        let pattern = lemma_pattern(c, p, arm.pattern);
        let b = lemma_arm_body(c, mid, arm);
        let one = ArmV { pattern, body: b };
        lemma_found(c, mid, body, 0);
        assert(body[0] == TokV::Newline);
        assert(arm_body_at(c, mid) == block_at(c, mid));
        let next = mid + body.len();
        let found = lemma_arms(c, next, arms, i + 1, done.push(one));
        assert(arms_at(c, p, done) == arms_at(c, next, done.push(one)));
        found
    }
}

proof fn lemma_arm_body(c: Input, p: int, arm: ArmV) -> (found: Seq<StmtV>)
    requires
        all_phrased(c, arm.body),
        stand(c, p, block_tokens(c, arm.body)),
    ensures
        blocks_alike(found, arm.body),
        block_at(c, p) == Ok::<(Seq<StmtV>, int), Fault>(
            (found, p + block_tokens(c, arm.body).len()),
        ),
    decreases arm, 0nat,
{
    lemma_block(c, p, arm.body)
}

/// A statement that is written is read back: where its tokens stand, the parser
/// finds what says the same and goes on behind them. A conditional must not be
/// followed by more of it.
pub proof fn law_statements_are_read_back(c: Input, p: int, s: StmtV)
    requires
        phrased(c, s),
        stand(c, p, phrase(c, s)),
        s is If ==> p + phrase(c, s).len() < c.toks.len() && c.at(p + phrase(c, s).len())
            != TokV::Elif && c.at(p + phrase(c, s).len()) != TokV::Else,
    ensures
        stmt_at(c, p) matches Ok((found, end)) && alike(found, s) && end == p + phrase(c, s).len(),
{
    lemma_phrase(c, p, s);
}

// ----- functions ---------------------------------------------------------------------------------
/// The tokens of a parameter.
pub open spec fn param_tokens(c: Input, param: ParamV) -> Seq<TokV> {
    seq![TokV::Ident(param.name), TokV::Colon] + type_tokens(c, param.ty)
}

/// The tokens of parameters with commas between them, from the `i`th on.
pub open spec fn params_tokens(c: Input, params: Seq<ParamV>, i: int) -> Seq<TokV>
    decreases params.len() - i,
{
    if i < 0 || i >= params.len() {
        Seq::empty()
    } else if i + 1 == params.len() {
        param_tokens(c, params[i])
    } else {
        param_tokens(c, params[i]) + seq![TokV::Comma] + params_tokens(c, params, i + 1)
    }
}

/// The tokens of what a function returns.
pub open spec fn result_tokens(c: Input, ret: Type) -> Seq<TokV> {
    if ret == Type::Unit {
        Seq::empty()
    } else {
        seq![TokV::Arrow] + type_tokens(c, ret)
    }
}

/// The tokens of a function; a method has its receiver in front of its name.
pub open spec fn function_tokens(c: Input, f: FunctionV) -> Seq<TokV> {
    seq![TokV::Fn] + (match f.recv {
        Some(r) => seq![TokV::LParen] + param_tokens(c, r) + seq![TokV::RParen],
        None => Seq::empty(),
    }) + seq![TokV::Ident(f.name), TokV::LParen] + params_tokens(c, f.params, 0) + seq![
        TokV::RParen,
    ] + result_tokens(c, f.ret) + seq![TokV::Colon] + block_tokens(c, f.body)
}

/// Whether a function can be written.
pub open spec fn function_phrased(c: Input, f: FunctionV) -> bool {
    &&& f.recv matches Some(r) ==> writable(c, r.ty)
    &&& forall|i: int| 0 <= i < f.params.len() ==> writable(c, (#[trigger] f.params[i]).ty)
    &&& f.ret == Type::Unit || writable(c, f.ret)
    &&& all_phrased(c, f.body)
}

proof fn lemma_param(c: Input, p: int, param: ParamV)
    requires
        writable(c, param.ty),
        stand(c, p, param_tokens(c, param)),
    ensures
        param_at(c, p) == Ok::<(ParamV, int), Fault>((param, p + param_tokens(c, param).len())),
        c.at(p) is Ident,
        param_tokens(c, param).len() > 2,
        param_tokens(c, param)[0] is Ident,
{
    let head = seq![TokV::Ident(param.name), TokV::Colon];
    lemma_split(c, p, head, type_tokens(c, param.ty));
    lemma_found(c, p, head, 0);
    lemma_found(c, p, head, 1);
    law_types_are_read_back(c, p + 2, param.ty);
}

proof fn lemma_params(c: Input, p: int, params: Seq<ParamV>, i: int, done: Seq<ParamV>)
    requires
        0 <= i <= params.len(),
        i == params.len() ==> i == 0,
        done == params.take(i),
        forall|j: int| 0 <= j < params.len() ==> writable(c, (#[trigger] params[j]).ty),
        stand(c, p, params_tokens(c, params, i) + seq![TokV::RParen]),
    ensures
        params_at(c, p, done) == Ok::<(Seq<ParamV>, int), Fault>(
            (params, p + params_tokens(c, params, i).len() + 1),
        ),
    decreases params.len() - i,
{
    let close = seq![TokV::RParen];
    let ts = params_tokens(c, params, i);
    lemma_split(c, p, ts, close);
    lemma_found(c, p + ts.len(), close, 0);
    if i == params.len() {
        assert(params.take(i) =~= params);
    } else {
        let one = param_tokens(c, params[i]);
        assert(done.push(params[i]) =~= params.take(i + 1));
        if i + 1 == params.len() {
            lemma_param(c, p, params[i]);
            assert(params.take(i + 1) =~= params);
        } else {
            let rest = params_tokens(c, params, i + 1) + close;
            assert(ts + close =~= one + (seq![TokV::Comma] + rest));
            lemma_split(c, p, one, seq![TokV::Comma] + rest);
            lemma_split(c, p + one.len(), seq![TokV::Comma], rest);
            lemma_found(c, p + one.len(), seq![TokV::Comma], 0);
            lemma_param(c, p, params[i]);
            lemma_params(c, p + one.len() + 1, params, i + 1, done.push(params[i]));
        }
    }
}

/// The tokens in front of a function's parameters.
spec fn front_tokens(c: Input, f: FunctionV) -> Seq<TokV> {
    seq![TokV::Fn] + (match f.recv {
        Some(r) => seq![TokV::LParen] + param_tokens(c, r) + seq![TokV::RParen],
        None => Seq::empty(),
    }) + seq![TokV::Ident(f.name), TokV::LParen]
}

/// The tokens behind a function's parameters.
spec fn back_tokens(c: Input, f: FunctionV) -> Seq<TokV> {
    result_tokens(c, f.ret) + seq![TokV::Colon] + block_tokens(c, f.body)
}

proof fn lemma_front(c: Input, p: int, f: FunctionV)
    requires
        f.recv matches Some(r) ==> writable(c, r.ty),
        stand(c, p, front_tokens(c, f)),
    ensures
        c.at(p + 1) == TokV::LParen <==> f.recv is Some,
        f.recv matches Some(r) ==> param_at(c, p + 2) == Ok::<(ParamV, int), Fault>(
            (r, p + front_tokens(c, f).len() - 3),
        ) && c.at(p + front_tokens(c, f).len() - 3) == TokV::RParen,
        f.recv is None ==> front_tokens(c, f).len() == 3,
        c.ident_then(p + front_tokens(c, f).len() - 2, TokV::LParen) == Ok::<
            (Seq<char>, int),
            Fault,
        >((f.name, p + front_tokens(c, f).len())),
{
    let all = front_tokens(c, f);
    let name = seq![TokV::Ident(f.name), TokV::LParen];
    match f.recv {
        None => {
            lemma_found(c, p, all, 1);
            lemma_found(c, p, all, 2);
        },
        Some(r) => {
            let pt = param_tokens(c, r);
            let open = seq![TokV::Fn, TokV::LParen];
            assert(all =~= open + (pt + (seq![TokV::RParen] + name)));
            lemma_split(c, p, open, pt + (seq![TokV::RParen] + name));
            lemma_split(c, p + 2, pt, seq![TokV::RParen] + name);
            lemma_found(c, p, open, 1);
            lemma_param(c, p + 2, r);
            let q = p + 2 + pt.len();
            lemma_found(c, q, seq![TokV::RParen] + name, 0);
            lemma_found(c, q, seq![TokV::RParen] + name, 1);
            lemma_found(c, q, seq![TokV::RParen] + name, 2);
        },
    }
}

proof fn lemma_back(c: Input, p: int, f: FunctionV) -> (body: Seq<StmtV>)
    requires
        f.ret == Type::Unit || writable(c, f.ret),
        all_phrased(c, f.body),
        stand(c, p, back_tokens(c, f)),
    ensures
        blocks_alike(body, f.body),
        return_type_at(c, p)
            == Ok::<(Type, int), Fault>((f.ret, p + result_tokens(c, f.ret).len())),
        c.at(p + result_tokens(c, f.ret).len()) == TokV::Colon,
        block_at(c, p + result_tokens(c, f.ret).len() + 1) == Ok::<(Seq<StmtV>, int), Fault>(
            (body, p + back_tokens(c, f).len()),
        ),
{
    let ret = result_tokens(c, f.ret);
    let colon = seq![TokV::Colon];
    let body = block_tokens(c, f.body);
    lemma_split(c, p, ret + colon, body);
    lemma_split(c, p, ret, colon);
    lemma_found(c, p + ret.len(), colon, 0);
    if f.ret != Type::Unit {
        lemma_split(c, p, seq![TokV::Arrow], type_tokens(c, f.ret));
        lemma_found(c, p, seq![TokV::Arrow], 0);
        law_types_are_read_back(c, p + 1, f.ret);
    }
    lemma_block(c, p + ret.len() + 1, f.body)
}

/// A function that is written is read back: its name, its receiver, its
/// parameters, what it returns, and what its body says.
pub proof fn law_functions_are_read_back(c: Input, p: int, f: FunctionV)
    requires
        function_phrased(c, f),
        stand(c, p, function_tokens(c, f)),
    ensures
        function_at(c, p) matches Ok((found, end)) && found.name == f.name && found.recv == f.recv
            && found.params == f.params && found.ret == f.ret && blocks_alike(found.body, f.body)
            && end == p + function_tokens(c, f).len(),
{
    let front = front_tokens(c, f);
    let params = params_tokens(c, f.params, 0) + seq![TokV::RParen];
    let back = back_tokens(c, f);
    assert(function_tokens(c, f) =~= front + (params + back));
    lemma_split(c, p, front, params + back);
    let p2 = p + front.len();
    lemma_split(c, p2, params, back);
    assert(f.params.take(0) =~= Seq::empty());
    lemma_front(c, p, f);
    lemma_params(c, p2, f.params, 0, Seq::empty());
    let body = lemma_back(c, p2 + params.len(), f);
}

// ----- structs, enums and foreign functions ------------------------------------------------------
/// The tokens that a declaration with an indented body begins with.
pub open spec fn header_tokens(kw: TokV, name: Seq<char>) -> Seq<TokV> {
    seq![kw, TokV::Ident(name), TokV::Colon, TokV::Newline, TokV::Indent]
}

/// The tokens of fields from the `i`th on, each on a line.
pub open spec fn fields_tokens(c: Input, fields: Seq<ParamV>, i: int) -> Seq<TokV>
    decreases fields.len() - i,
{
    if i < 0 || i >= fields.len() {
        Seq::empty()
    } else {
        param_tokens(c, fields[i]) + seq![TokV::Newline] + fields_tokens(c, fields, i + 1)
    }
}

/// The tokens of a struct.
pub open spec fn struct_tokens(c: Input, d: StructV) -> Seq<TokV> {
    header_tokens(TokV::Struct, d.name) + fields_tokens(c, d.fields, 0) + seq![TokV::Dedent]
}

/// The tokens of types with commas between them, from the `i`th on.
pub open spec fn types_tokens(c: Input, types: Seq<Type>, i: int) -> Seq<TokV>
    decreases types.len() - i,
{
    if i < 0 || i >= types.len() {
        Seq::empty()
    } else if i + 1 == types.len() {
        type_tokens(c, types[i])
    } else {
        type_tokens(c, types[i]) + seq![TokV::Comma] + types_tokens(c, types, i + 1)
    }
}

/// The tokens of a variant: its name, and the types of its payload if it has one.
pub open spec fn variant_tokens(c: Input, v: VariantV) -> Seq<TokV> {
    if v.fields.len() == 0 {
        seq![TokV::Ident(v.name), TokV::Newline]
    } else {
        seq![TokV::Ident(v.name), TokV::LParen] + types_tokens(c, v.fields, 0) + seq![
            TokV::RParen,
            TokV::Newline,
        ]
    }
}

/// The tokens of variants from the `i`th on.
pub open spec fn variants_tokens(c: Input, vs: Seq<VariantV>, i: int) -> Seq<TokV>
    decreases vs.len() - i,
{
    if i < 0 || i >= vs.len() {
        Seq::empty()
    } else {
        variant_tokens(c, vs[i]) + variants_tokens(c, vs, i + 1)
    }
}

/// The tokens of an enum.
pub open spec fn enum_tokens(c: Input, d: EnumV) -> Seq<TokV> {
    header_tokens(TokV::Enum, d.name) + variants_tokens(c, d.variants, 0) + seq![TokV::Dedent]
}

proof fn lemma_header(c: Input, p: int, kw: TokV, name: Seq<char>)
    requires
        stand(c, p, header_tokens(kw, name)),
    ensures
        header_at(c, p) == Ok::<(Seq<char>, int), Fault>((name, p + 5)),
{
    let ts = header_tokens(kw, name);
    lemma_found(c, p, ts, 1);
    lemma_found(c, p, ts, 2);
    lemma_found(c, p, ts, 3);
    lemma_found(c, p, ts, 4);
}

proof fn lemma_fields_read(
    c: Input,
    p: int,
    name: Seq<char>,
    fields: Seq<ParamV>,
    i: int,
    done: Seq<ParamV>,
)
    requires
        fields.len() > 0,
        0 <= i <= fields.len(),
        done == fields.take(i),
        forall|j: int| 0 <= j < fields.len() ==> writable(c, (#[trigger] fields[j]).ty),
        forall|j: int, k: int|
            0 <= j < k < fields.len() ==> (#[trigger] fields[j]).name != (
            #[trigger] fields[k]).name,
        stand(c, p, fields_tokens(c, fields, i) + seq![TokV::Dedent]),
    ensures
        fields_at(c, p, name, done) == Ok::<(Seq<ParamV>, int), Fault>(
            (fields, p + fields_tokens(c, fields, i).len() + 1),
        ),
    decreases fields.len() - i,
{
    let close = seq![TokV::Dedent];
    if i == fields.len() {
        lemma_split(c, p, fields_tokens(c, fields, i), close);
        lemma_found(c, p, close, 0);
        assert(fields.take(i) =~= fields);
    } else {
        let f = fields[i];
        let head = seq![TokV::Ident(f.name), TokV::Colon];
        let ts = type_tokens(c, f.ty);
        let rest = fields_tokens(c, fields, i + 1) + close;
        assert(fields_tokens(c, fields, i) + close =~= head + (ts + (seq![TokV::Newline] + rest)));
        lemma_split(c, p, head, ts + (seq![TokV::Newline] + rest));
        lemma_split(c, p + 2, ts, seq![TokV::Newline] + rest);
        let q = p + 2 + ts.len();
        lemma_split(c, q, seq![TokV::Newline], rest);
        lemma_found(c, p, head, 0);
        lemma_found(c, p, head, 1);
        lemma_found(c, q, seq![TokV::Newline], 0);
        law_types_are_read_back(c, p + 2, f.ty);
        assert(!has_param(done, f.name)) by {
            if has_param(done, f.name) {
                let k = choose|k: int| 0 <= k < done.len() && (#[trigger] done[k]).name == f.name;
                assert(done[k] == fields[k]);
            }
        }
        assert(done.push(f) =~= fields.take(i + 1));
        lemma_fields_read(c, q + 1, name, fields, i + 1, done.push(f));
    }
}

/// A struct that is written is read back: its name, and its fields in order.
pub proof fn law_structs_are_read_back(c: Input, p: int, d: StructV)
    requires
        d.fields.len() > 0,
        forall|j: int| 0 <= j < d.fields.len() ==> writable(c, (#[trigger] d.fields[j]).ty),
        forall|j: int, k: int|
            0 <= j < k < d.fields.len() ==> (#[trigger] d.fields[j]).name != (
            #[trigger] d.fields[k]).name,
        stand(c, p, struct_tokens(c, d)),
    ensures
        struct_at(c, p) matches Ok((found, end)) && found.name == d.name && found.fields == d.fields
            && end == p + struct_tokens(c, d).len(),
{
    let head = header_tokens(TokV::Struct, d.name);
    let back = fields_tokens(c, d.fields, 0) + seq![TokV::Dedent];
    assert(struct_tokens(c, d) =~= head + back);
    lemma_split(c, p, head, back);
    lemma_header(c, p, TokV::Struct, d.name);
    assert(d.fields.take(0) =~= Seq::empty());
    lemma_fields_read(c, p + 5, d.name, d.fields, 0, Seq::empty());
}

proof fn lemma_types_read(c: Input, p: int, types: Seq<Type>, i: int, done: Seq<Type>)
    requires
        0 <= i < types.len(),
        done == types.take(i),
        forall|j: int| 0 <= j < types.len() ==> writable(c, #[trigger] types[j]),
        stand(c, p, types_tokens(c, types, i) + seq![TokV::RParen]),
    ensures
        types_at(c, p, done) == Ok::<(Seq<Type>, int), Fault>(
            (types, p + types_tokens(c, types, i).len() + 1),
        ),
    decreases types.len() - i,
{
    let close = seq![TokV::RParen];
    let ts = types_tokens(c, types, i);
    let one = type_tokens(c, types[i]);
    lemma_split(c, p, ts, close);
    lemma_found(c, p + ts.len(), close, 0);
    assert(done.push(types[i]) =~= types.take(i + 1));
    if i + 1 == types.len() {
        law_types_are_read_back(c, p, types[i]);
        lemma_found(c, p, one, 0);
        assert(types.take(i + 1) =~= types);
    } else {
        let rest = types_tokens(c, types, i + 1) + close;
        assert(ts + close =~= one + (seq![TokV::Comma] + rest));
        lemma_split(c, p, one, seq![TokV::Comma] + rest);
        lemma_split(c, p + one.len(), seq![TokV::Comma], rest);
        law_types_are_read_back(c, p, types[i]);
        lemma_found(c, p, one, 0);
        lemma_found(c, p + one.len(), seq![TokV::Comma], 0);
        lemma_types_read(c, p + one.len() + 1, types, i + 1, done.push(types[i]));
    }
}

proof fn lemma_variant_read(c: Input, p: int, v: VariantV)
    requires
        forall|j: int| 0 <= j < v.fields.len() ==> writable(c, #[trigger] v.fields[j]),
        stand(c, p, variant_tokens(c, v)),
    ensures
        variant_at(c, p) == Ok::<(VariantV, int), Fault>((v, p + variant_tokens(c, v).len())),
        c.at(p) is Ident,
{
    let ts = variant_tokens(c, v);
    lemma_found(c, p, ts, 0);
    if v.fields.len() == 0 {
        lemma_found(c, p, ts, 1);
        assert(v.fields =~= Seq::empty());
    } else {
        let head = seq![TokV::Ident(v.name), TokV::LParen];
        let mid = types_tokens(c, v.fields, 0) + seq![TokV::RParen];
        assert(ts =~= head + (mid + seq![TokV::Newline]));
        lemma_split(c, p, head, mid + seq![TokV::Newline]);
        lemma_split(c, p + 2, mid, seq![TokV::Newline]);
        lemma_found(c, p, head, 1);
        lemma_found(c, p + 2 + mid.len(), seq![TokV::Newline], 0);
        assert(v.fields.take(0) =~= Seq::empty());
        lemma_types_read(c, p + 2, v.fields, 0, Seq::empty());
    }
}

proof fn lemma_variants_read(
    c: Input,
    p: int,
    name: Seq<char>,
    vs: Seq<VariantV>,
    i: int,
    done: Seq<VariantV>,
)
    requires
        vs.len() > 0,
        0 <= i <= vs.len(),
        done == vs.take(i),
        forall|j: int, k: int|
            0 <= j < vs.len() && 0 <= k < vs[j].fields.len() ==> writable(
                c,
                #[trigger] vs[j].fields[k],
            ),
        stand(c, p, variants_tokens(c, vs, i) + seq![TokV::Dedent]),
    ensures
        variants_at(c, p, name, done) == Ok::<(Seq<VariantV>, int), Fault>(
            (vs, p + variants_tokens(c, vs, i).len() + 1),
        ),
    decreases vs.len() - i,
{
    let close = seq![TokV::Dedent];
    if i == vs.len() {
        lemma_split(c, p, variants_tokens(c, vs, i), close);
        lemma_found(c, p, close, 0);
        assert(vs.take(i) =~= vs);
    } else {
        let one = variant_tokens(c, vs[i]);
        let rest = variants_tokens(c, vs, i + 1) + close;
        assert(variants_tokens(c, vs, i) + close =~= one + rest);
        lemma_split(c, p, one, rest);
        lemma_variant_read(c, p, vs[i]);
        assert(done.push(vs[i]) =~= vs.take(i + 1));
        lemma_variants_read(c, p + one.len(), name, vs, i + 1, done.push(vs[i]));
    }
}

/// An enum that is written is read back: its name, and its variants in order with
/// what they carry.
pub proof fn law_enums_are_read_back(c: Input, p: int, d: EnumV)
    requires
        d.variants.len() > 0,
        forall|j: int, k: int|
            0 <= j < d.variants.len() && 0 <= k < d.variants[j].fields.len() ==> writable(
                c,
                #[trigger] d.variants[j].fields[k],
            ),
        stand(c, p, enum_tokens(c, d)),
    ensures
        enum_at(c, p) matches Ok((found, end)) && found.name == d.name && found.variants
            == d.variants && end == p + enum_tokens(c, d).len(),
{
    let head = header_tokens(TokV::Enum, d.name);
    let back = variants_tokens(c, d.variants, 0) + seq![TokV::Dedent];
    assert(enum_tokens(c, d) =~= head + back);
    lemma_split(c, p, head, back);
    lemma_header(c, p, TokV::Enum, d.name);
    assert(d.variants.take(0) =~= Seq::empty());
    lemma_variants_read(c, p + 5, d.name, d.variants, 0, Seq::empty());
}

/// The tokens of a foreign function's parameter, which may have a name or, where
/// its type is scalar, none.
pub open spec fn foreign_param(c: Input, t: Type) -> Seq<TokV> {
    match t {
        Type::Int | Type::Float | Type::Bool | Type::Str => type_tokens(c, t),
        _ => seq![TokV::Ident("it"@), TokV::Colon] + type_tokens(c, t),
    }
}

/// The tokens of a foreign function's parameters from the `i`th on; `...` says
/// that more may follow.
pub open spec fn foreign_params(c: Input, types: Seq<Type>, more: bool, i: int) -> Seq<TokV>
    decreases types.len() - i,
{
    if i < 0 || i >= types.len() {
        if more {
            seq![TokV::Ellipsis]
        } else {
            Seq::empty()
        }
    } else if i + 1 == types.len() && !more {
        foreign_param(c, types[i])
    } else {
        foreign_param(c, types[i]) + seq![TokV::Comma] + foreign_params(c, types, more, i + 1)
    }
}

/// The tokens of a foreign function.
pub open spec fn foreign_tokens(c: Input, d: ExternV) -> Seq<TokV> {
    seq![TokV::Extern, TokV::Fn, TokV::Ident(d.name), TokV::LParen] + foreign_params(
        c,
        d.params,
        d.varargs,
        0,
    ) + seq![TokV::RParen] + result_tokens(c, d.ret) + seq![TokV::Newline]
}

proof fn lemma_foreign_param(c: Input, p: int, t: Type)
    requires
        writable(c, t),
        stand(c, p, foreign_param(c, t)),
        c.at(p + foreign_param(c, t).len()) != TokV::Colon,
    ensures
        extern_param_at(c, p) == Ok::<(Type, int), Fault>((t, p + foreign_param(c, t).len())),
        c.at(p) is Ident,
        foreign_param(c, t).len() > 0,
{
    lemma_scalars();
    lemma_found(c, p, foreign_param(c, t), 0);
    match t {
        Type::Int | Type::Float | Type::Bool | Type::Str => {},
        _ => {
            let head = seq![TokV::Ident("it"@), TokV::Colon];
            lemma_split(c, p, head, type_tokens(c, t));
            lemma_found(c, p, head, 1);
            law_types_are_read_back(c, p + 2, t);
        },
    }
}

proof fn lemma_foreign_params(
    c: Input,
    p: int,
    types: Seq<Type>,
    more: bool,
    i: int,
    done: Seq<Type>,
)
    requires
        0 <= i <= types.len(),
        i == types.len() ==> more || i == 0,
        done == types.take(i),
        forall|j: int| 0 <= j < types.len() ==> writable(c, #[trigger] types[j]),
        stand(c, p, foreign_params(c, types, more, i) + seq![TokV::RParen]),
    ensures
        extern_params_at(c, p, done) == Ok::<((Seq<Type>, bool), int), Fault>(
            ((types, more), p + foreign_params(c, types, more, i).len() + 1),
        ),
    decreases types.len() - i,
{
    let close = seq![TokV::RParen];
    let ts = foreign_params(c, types, more, i);
    lemma_split(c, p, ts, close);
    lemma_found(c, p + ts.len(), close, 0);
    if i == types.len() {
        assert(types.take(i) =~= types);
        if more {
            lemma_found(c, p, ts, 0);
        }
    } else {
        let one = foreign_param(c, types[i]);
        assert(done.push(types[i]) =~= types.take(i + 1));
        if i + 1 == types.len() && !more {
            lemma_foreign_param(c, p, types[i]);
            assert(types.take(i + 1) =~= types);
        } else {
            let rest = foreign_params(c, types, more, i + 1) + close;
            assert(ts + close =~= one + (seq![TokV::Comma] + rest));
            lemma_split(c, p, one, seq![TokV::Comma] + rest);
            lemma_split(c, p + one.len(), seq![TokV::Comma], rest);
            lemma_found(c, p + one.len(), seq![TokV::Comma], 0);
            lemma_foreign_param(c, p, types[i]);
            lemma_foreign_params(c, p + one.len() + 1, types, more, i + 1, done.push(types[i]));
        }
    }
}

/// A foreign function that is written is read back.
pub proof fn law_foreign_functions_are_read_back(c: Input, p: int, d: ExternV)
    requires
        forall|j: int| 0 <= j < d.params.len() ==> writable(c, #[trigger] d.params[j]),
        d.ret == Type::Unit || writable(c, d.ret),
        stand(c, p, foreign_tokens(c, d)),
    ensures
        extern_at(c, p) matches Ok((found, end)) && found.name == d.name && found.params == d.params
            && found.varargs == d.varargs && found.ret == d.ret && end == p + foreign_tokens(
            c,
            d,
        ).len(),
{
    let head = seq![TokV::Extern, TokV::Fn, TokV::Ident(d.name), TokV::LParen];
    let params = foreign_params(c, d.params, d.varargs, 0) + seq![TokV::RParen];
    let ret = result_tokens(c, d.ret);
    let close = seq![TokV::Newline];
    assert(foreign_tokens(c, d) =~= head + (params + (ret + close)));
    lemma_split(c, p, head, params + (ret + close));
    lemma_split(c, p + 4, params, ret + close);
    let q = p + 4 + params.len();
    lemma_split(c, q, ret, close);
    lemma_found(c, p, head, 1);
    lemma_found(c, p, head, 2);
    lemma_found(c, p, head, 3);
    lemma_found(c, q + ret.len(), close, 0);
    assert(d.params.take(0) =~= Seq::empty());
    lemma_foreign_params(c, p + 4, d.params, d.varargs, 0, Seq::empty());
    if d.ret != Type::Unit {
        lemma_split(c, q, seq![TokV::Arrow], type_tokens(c, d.ret));
        lemma_found(c, q, seq![TokV::Arrow], 0);
        law_types_are_read_back(c, q + 1, d.ret);
    }
}

} // verus!
