//! Phase 3: semantic analysis.
//!
//! - Scoped symbol tables (a stack of maps) track variables and types.
//! - Expression types are inferred bottom-up and annotated onto the AST.
//! - `extern fn` declarations are registered as foreign symbols; calls to
//!   them type-check like normal calls (varargs allowed).
//!
//! The rules themselves are stated in [`crate::typing`].
use vstd::prelude::*;
use vstd::hash_map::StringHashMap;
use crate::ast::{
    arms_v, block_v, enums_v, exprs_v, externs_v, functions_v, kind_v, names_v, opt_expr_v,
    params_v, structs_v, variants_v, BinOp, EnumDef, EnumV, Expr, ExprKind, ExprV, ExternFn,
    Function, KindV, MatchArm, Param, Pattern, Program, ProgramV, Stmt, StmtV, StructDef, StructV,
    Type, UnOp, VariantDef,
};
use crate::declarations::law_analysis_keeps_declarations;
use crate::diag::{Diagnostic, Fault, Span};
use crate::parser::nested_array;
use crate::text::{cat2, cat3, cat4, cat5, cat6, cat7, cat8, dec, dec_usize, same};
use crate::typing::{
    all_covered, all_known, analyzed, arm_known, arms_known, binary_type, bind_all, bind_params,
    block_known, bound, builtin, builtin_arity, builtin_count, builtin_type, call_of, checked,
    checked_arm, checked_arms, checked_assign, checked_block, checked_each, checked_field_assign,
    checked_for, checked_function, checked_functions, checked_if, checked_index_assign,
    checked_jump, checked_let, checked_loop, checked_match, checked_range, checked_return,
    checked_stmts, checked_while, constructs, covering, declare, emptied, enter_all,
    enter_all_variants, enter_enums, enter_externs, enter_function, enter_functions, enter_structs,
    enter_variants, enum_known, expr_known, exprs_known, fresh_state, function_known,
    is_empty_array, is_new, kind_known, known, lookup, missing, named, names_known, opaque, padded,
    param_types, params_known, program_known, pushed, receiver_scope, refusal, scopes_known,
    sig_known, stmt_known, tables_known, typed, typed_array, typed_as, typed_call, typed_kind,
    typed_list, typed_method, unary_type, Env, Scopes, SigV, State, Tables, Want,
};

verus! {

#[derive(Debug, Clone)]
pub struct SemaError {
    pub span: Span,
    pub message: String,
}

impl SemaError {
    pub open spec fn view(&self) -> Fault {
        Fault { span: self.span, message: self.message@ }
    }

    /// The one-line form of the error.
    pub fn to_text(&self) -> (s: String)
        ensures
            s@ == "semantic error (line "@ + dec(self.span.line as nat) + "): "@ + self.message@,
    {
        let n = dec_usize(self.span.line);
        cat4("semantic error (line ", n.as_str(), "): ", self.message.as_str())
    }

    /// The diagnostic that reports this error.
    pub fn into_diagnostic(self) -> (d: Diagnostic)
        ensures
            d.phase@ == "semantic"@,
            d.span == self.span,
            d.message@ == self.message@,
    {
        Diagnostic { phase: "semantic", span: self.span, message: self.message }
    }
}

/// A semantic error at a place.
fn error(span: Span, message: String) -> (e: SemaError)
    ensures
        e@ == crate::typing::fault(span, message@),
{
    SemaError { span, message }
}

#[derive(Debug)]
pub struct FnSig {
    pub params: Vec<Type>,
    pub varargs: bool,
    pub ret: Type,
}

impl FnSig {
    pub open spec fn view(&self) -> SigV {
        SigV { params: self.params@, varargs: self.varargs, ret: self.ret }
    }
}

/// The signatures of a table as values of mathematics.
pub open spec fn sigs_v(m: Map<Seq<char>, FnSig>) -> Map<Seq<char>, SigV> {
    m.map_values(|s: FnSig| s@)
}

/// A stack of lexical scopes mapping variable name -> type.
pub struct SymbolTable {
    scopes: Vec<StringHashMap<Type>>,
}

/// The contents of a stack of maps.
pub open spec fn scopes_v(s: Seq<StringHashMap<Type>>) -> Scopes {
    Seq::new(s.len(), |i: int| s[i]@)
}

impl SymbolTable {
    pub closed spec fn view(&self) -> Scopes {
        scopes_v(self.scopes@)
    }

    pub fn new() -> (t: Self)
        ensures
            t@ == seq![Map::<Seq<char>, Type>::empty()],
    {
        let mut scopes: Vec<StringHashMap<Type>> = Vec::new();
        scopes.push(StringHashMap::new());
        assert(scopes_v(scopes@) =~= seq![Map::<Seq<char>, Type>::empty()]);
        SymbolTable { scopes }
    }

    pub fn push(&mut self)
        ensures
            final(self)@ == pushed(old(self)@),
    {
        self.scopes.push(StringHashMap::new());
        assert(self@ =~= pushed(old(self)@));
    }

    /// Closes the innermost scope, where there is one.
    pub fn pop(&mut self)
        ensures
            final(self)@ == (if old(self)@.len() > 0 {
                old(self)@.drop_last()
            } else {
                old(self)@
            }),
    {
        self.scopes.pop();
        assert(old(self)@.len() > 0 ==> self@ =~= old(self)@.drop_last());
        assert(old(self)@.len() == 0 ==> self@ =~= old(self)@);
    }

    /// Declares a variable in the innermost scope; `false` where it was there
    /// already.
    pub fn declare(&mut self, name: &str, ty: Type) -> (fresh: bool)
        requires
            old(self)@.len() > 0,
        ensures
            final(self)@ == declare(old(self)@, name@, ty),
            fresh == is_new(old(self)@, name@),
    {
        let last: usize = self.scopes.len() - 1;
        let fresh = !self.scopes[last].contains_key(name);
        self.scopes[last].insert(String::from_str(name), ty);
        assert(self@ =~= declare(old(self)@, name@, ty));
        fresh
    }

    /// The type of a variable, the innermost declaration first.
    pub fn lookup(&self, name: &str) -> (ty: Option<Type>)
        ensures
            ty == lookup(self@, name@),
    {
        let mut i: usize = self.scopes.len();
        assert(self@.take(i as int) =~= self@);
        while i > 0
            invariant
                i <= self.scopes@.len(),
                lookup(self@, name@) == lookup(self@.take(i as int), name@),
            decreases i,
        {
            i = i - 1;
            assert(self@.take(i + 1).last() == self.scopes@[i as int]@);
            assert(self@.take(i + 1).drop_last() =~= self@.take(i as int));
            if let Some(ty) = self.scopes[i].get(name) {
                return Some(*ty);
            }
        }
        None
    }
}

pub struct Analyzer {
    pub functions: StringHashMap<FnSig>,
    /// Struct methods, by struct id and method name. The signature's
    /// `params` exclude the implicit receiver.
    methods: Vec<StringHashMap<FnSig>>,
    structs: Vec<StructDef>,
    struct_ids: StringHashMap<u32>,
    enums: Vec<EnumDef>,
    enum_ids: StringHashMap<u32>,
    /// Variant name -> (enum id, variant index). Variant names are global and
    /// unique, so a bare `Some(x)` / `None` resolves without qualification.
    variants: StringHashMap<(u32, u32)>,
    symbols: SymbolTable,
    current_ret: Type,
    /// Whether a loop encloses the statement at hand.
    in_loop: bool,
}

/// The method tables as values of mathematics.
pub open spec fn methods_v(s: Seq<StringHashMap<FnSig>>) -> Seq<Map<Seq<char>, SigV>> {
    Seq::new(s.len(), |i: int| sigs_v(s[i]@))
}

impl Analyzer {
    /// The state of the analysis.
    #[verifier::opaque]
    pub closed spec fn view(&self) -> State {
        State {
            tables: Tables {
                functions: sigs_v(self.functions@),
                methods: methods_v(self.methods@),
                structs: structs_v(self.structs@),
                struct_ids: self.struct_ids@,
                enums: enums_v(self.enums@),
                enum_ids: self.enum_ids@,
                variants: self.variants@,
            },
            env: Env { scopes: self.symbols@, in_loop: self.in_loop },
            ret: self.current_ret,
        }
    }

    /// Everything that was declared.
    pub open spec fn tables(&self) -> Tables {
        self@.tables
    }

    /// The variables in scope.
    pub open spec fn scopes(&self) -> Scopes {
        self@.env.scopes
    }

    /// Whether all names lead to declared structs and enums.
    pub open spec fn wf(&self) -> bool {
        &&& tables_known(self.tables())
        &&& scopes_known(self.ns(), self.ne(), self.scopes())
        &&& self.scopes().len() > 0
    }

    pub open spec fn ns(&self) -> nat {
        self.tables().structs.len()
    }

    pub open spec fn ne(&self) -> nat {
        self.tables().enums.len()
    }

    /// Resolve a type to a user-facing name (struct/enum ids -> their names).
    pub fn name_of_type(&self, t: Type) -> (s: String)
        requires
            known(self.ns(), self.ne(), t),
        ensures
            s@ == named(self.tables(), t),
        decreases (if let Type::Array(_, dims) = t {
            dims as nat
        } else {
            0
        }),
    {
        proof {
            reveal(Analyzer::view);
        }
        match t {
            Type::Struct(id) => {
                assert(structs_v(self.structs@)[id as int] == self.structs@[id as int]@);
                self.structs[id as usize].name.clone()
            },
            Type::Enum(id) => {
                assert(enums_v(self.enums@)[id as int] == self.enums@[id as int]@);
                self.enums[id as usize].name.clone()
            },
            Type::Array(_, _) => match t.array_elem() {
                Some(elem) => cat3("[", self.name_of_type(elem).as_str(), "]"),
                None => String::new(),
            },
            other => other.to_text(),
        }
    }

    // ----- scopes ---------------------------------------------------------------------
    /// The type of a variable.
    fn variable(&self, name: &str) -> (ty: Option<Type>)
        ensures
            ty == lookup(self.scopes(), name@),
    {
        proof {
            reveal(Analyzer::view);
        }
        self.symbols.lookup(name)
    }

    /// Declares a variable; `false` where it was there already.
    fn declare(&mut self, name: &str, ty: Type) -> (fresh: bool)
        requires
            old(self).wf(),
            known(old(self).ns(), old(self).ne(), ty),
        ensures
            final(self).wf(),
            final(self)@ == (State {
                env: Env {
                    scopes: declare(old(self).scopes(), name@, ty),
                    ..old(self)@.env
                },
                ..old(self)@
            }),
            fresh == is_new(old(self).scopes(), name@),
    {
        proof {
            reveal(Analyzer::view);
        }
        proof {
            lemma_declare_known(self.ns(), self.ne(), self.scopes(), name@, ty);
        }
        self.symbols.declare(name, ty)
    }

    fn open_scope(&mut self)
        requires
            old(self).wf(),
        ensures
            final(self).wf(),
            final(self)@ == (State {
                env: Env { scopes: pushed(old(self).scopes()), ..old(self)@.env },
                ..old(self)@
            }),
    {
        proof {
            reveal(Analyzer::view);
        }
        proof {
            lemma_push_known(self.ns(), self.ne(), self.scopes());
        }
        self.symbols.push();
    }

    fn close_scope(&mut self)
        requires
            old(self).wf(),
            old(self).scopes().len() > 1,
        ensures
            final(self).wf(),
            final(self)@ == (State {
                env: Env { scopes: old(self).scopes().drop_last(), ..old(self)@.env },
                ..old(self)@
            }),
    {
        proof {
            reveal(Analyzer::view);
        }
        proof {
            lemma_pop_known(self.ns(), self.ne(), self.scopes());
        }
        self.symbols.pop();
    }

    /// Sets whether a loop encloses what follows; whether one did before.
    fn set_in_loop(&mut self, in_loop: bool) -> (before: bool)
        ensures
            final(self)@ == (State { env: Env { in_loop, ..old(self)@.env }, ..old(self)@ }),
            before == old(self)@.env.in_loop,
    {
        proof {
            reveal(Analyzer::view);
        }
        let before = self.in_loop;
        self.in_loop = in_loop;
        before
    }

    // ----- expressions ----------------------------------------------------------------
    /// The variant that an expression constructs. A `Call` or `Var` whose name
    /// is a known variant is a constructor; a plain identifier only if it is
    /// not a local.
    fn constructed(&self, expr: &Expr) -> (v: Option<(u32, u32)>)
        ensures
            v == constructs(self.tables(), self.scopes(), expr@),
    {
        proof {
            reveal(Analyzer::view);
        }
        let name = match &expr.kind {
            ExprKind::Call(name, _) => name,
            ExprKind::Var(name) => {
                if self.variable(name.as_str()).is_some() {
                    return None;
                }
                name
            },
            _ => {
                return None;
            },
        };
        match self.variants.get(name.as_str()) {
            Some(v) => Some(*v),
            None => None,
        }
    }

    /// Rewrite a constructor to `EnumInit`, type-checking the payload, and
    /// return the enum type.
    fn check_enum_init(&self, expr: &mut Expr, eid: u32, vid: u32) -> (r: Result<Type, SemaError>)
        requires
            self.wf(),
            expr_known(self.ne(), old(expr)@),
            constructs(self.tables(), self.scopes(), old(expr)@) == Some((eid, vid)),
        ensures
            (final(expr)@, type_result(r)) == typed(self.tables(), self.scopes(), old(expr)@),
            r matches Ok(ty) ==> known(self.ns(), self.ne(), ty),
        decreases *old(expr), 0nat,
    {
        proof {
            reveal(Analyzer::view);
        }
        let span = expr.span;
        let mut args: Vec<Expr> = Vec::new();
        let name = match &mut expr.kind {
            ExprKind::Call(name, given) => {
                core::mem::swap(given, &mut args);
                name.clone()
            },
            ExprKind::Var(name) => name.clone(),
            _ => String::new(),
        };
        let ghost given = args;
        let ghost empty = Seq::<ExprV>::empty();
        assert(expr@ == emptied(old(expr)@)) by {
            assert(exprs_v(Seq::<Expr>::empty()) =~= empty);
        }
        proof {
            lemma_variants(self, eid, vid);
            assert(name@ == call_of(old(expr)@).0);
            if !(old(expr)@.kind is Call) {
                assert(exprs_v(args@) =~= empty);
            }
            let listed = match old(expr)@.kind {
                KindV::Call(_, a) => a,
                _ => empty,
            };
            assert(listed == exprs_v(args@));
            assert(listed.len() == args@.len());
        }
        let fields = &self.enums[eid as usize].variants[vid as usize].fields;
        if args.len() != fields.len() {
            return Err(
                error(
                    span,
                    cat6(
                        "variant `",
                        name.as_str(),
                        "` takes ",
                        dec_usize(fields.len()).as_str(),
                        " payload value(s), got ",
                        dec_usize(args.len()).as_str(),
                    ),
                ),
            );
        }
        if args.len() > 0 {
            match self.check_list(
                &mut args,
                0,
                &Wanted::Payload { name: name.as_str(), fields },
                Ghost(given),
            ) {
                Ok(_) => {},
                Err(e) => {
                    return Err(e);
                },
            }
        }
        proof {
            let want = Want::Payload { name: name@, fields: fields@ };
            let checked = typed_list(self.tables(), self.scopes(), exprs_v(given@), want, 0).0;
            assert(exprs_v(args@) =~= checked);
        }
        expr.kind = ExprKind::EnumInit(eid, vid, args);
        expr.ty = Some(Type::Enum(eid));
        Ok(Type::Enum(eid))
    }

    fn check_expr(&self, expr: &mut Expr) -> (r: Result<Type, SemaError>)
        requires
            self.wf(),
            expr_known(self.ne(), old(expr)@),
        ensures
            (final(expr)@, type_result(r)) == typed(self.tables(), self.scopes(), old(expr)@),
            r matches Ok(ty) ==> known(self.ns(), self.ne(), ty),
        decreases *old(expr), 1nat,
    {
        if let Some((eid, vid)) = self.constructed(expr) {
            return self.check_enum_init(expr, eid, vid);
        }
        match self.check_kind(&mut expr.kind, expr.span) {
            Ok(ty) => {
                expr.ty = Some(ty);
                Ok(ty)
            },
            Err(e) => Err(e),
        }
    }

    /// Type-checks the shape of an expression that constructs no variant.
    fn check_kind(&self, kind: &mut ExprKind, span: Span) -> (r: Result<Type, SemaError>)
        requires
            self.wf(),
            kind_known(self.ne(), kind_v(*old(kind))),
        ensures
            (kind_v(*final(kind)), type_result(r)) == typed_kind(
                self.tables(),
                self.scopes(),
                kind_v(*old(kind)),
                span,
            ),
            r matches Ok(ty) ==> known(self.ns(), self.ne(), ty),
        decreases *old(kind), 3nat,
    {
        match kind {
            ExprKind::Int(_) => Ok(Type::Int),
            ExprKind::Float(_) => Ok(Type::Float),
            ExprKind::Bool(_) => Ok(Type::Bool),
            ExprKind::Str(_) => Ok(Type::Str),
            ExprKind::Var(name) => match self.variable(name.as_str()) {
                Some(ty) => {
                    proof {
                        lemma_lookup_known(self.ns(), self.ne(), self.scopes(), name@);
                    }
                    Ok(ty)
                },
                None => Err(error(span, cat3("undefined variable `", name.as_str(), "`"))),
            },
            ExprKind::Unary(op, a) => {
                let ty = match self.check_expr(a) {
                    Ok(ty) => ty,
                    Err(e) => {
                        return Err(e);
                    },
                };
                check_unary(*op, ty, span)
            },
            ExprKind::Binary(a, op, b) => {
                let lt = match self.check_expr(a) {
                    Ok(ty) => ty,
                    Err(e) => {
                        return Err(e);
                    },
                };
                let rt = match self.check_expr(b) {
                    Ok(ty) => ty,
                    Err(e) => {
                        return Err(e);
                    },
                };
                self.check_binary(*op, lt, rt, span)
            },
            ExprKind::Call(name, args) => self.check_call(name.as_str(), args, span),
            ExprKind::MethodCall(recv, name, args) => {
                let rt = match self.check_expr(recv) {
                    Ok(ty) => ty,
                    Err(e) => {
                        return Err(e);
                    },
                };
                self.check_method(rt, recv.span, name.as_str(), args, span)
            },
            ExprKind::ArrayLit(es) => self.check_array(es, span),
            ExprKind::Index(a, b) => {
                let base = match self.check_expr(a) {
                    Ok(ty) => ty,
                    Err(e) => {
                        return Err(e);
                    },
                };
                let elem = match base {
                    // `s[i]` yields the character at byte i as a 1-char str.
                    Type::Str => Type::Str,
                    _ => match base.array_elem() {
                        Some(elem) => elem,
                        None => {
                            return Err(
                                error(
                                    span,
                                    cat2("cannot index a value of type ", base.to_text().as_str()),
                                ),
                            );
                        },
                    },
                };
                let it = match self.check_expr(b) {
                    Ok(ty) => ty,
                    Err(e) => {
                        return Err(e);
                    },
                };
                if it != Type::Int {
                    return Err(
                        error(span, cat2("index must be int, found ", it.to_text().as_str())),
                    );
                }
                Ok(elem)
            },
            ExprKind::Field(a, name) => {
                let bt = match self.check_expr(a) {
                    Ok(ty) => ty,
                    Err(e) => {
                        return Err(e);
                    },
                };
                self.check_field(bt, name.as_str(), span)
            },
            // Already rewritten, and its payload validated, when it was
            // produced.
            ExprKind::EnumInit(eid, _, _) => Ok(Type::Enum(*eid)),
        }
    }

    /// The type of a field of a value of type `bt`.
    fn check_field(&self, bt: Type, name: &str, span: Span) -> (r: Result<Type, SemaError>)
        requires
            self.wf(),
            known(self.ns(), self.ne(), bt),
        ensures
            type_result(r) == (match bt {
                Type::Struct(id) => match self.tables().structs[id as int].field_of(name@) {
                    Some((_, ty)) => Ok(ty),
                    None => Err(
                        crate::typing::fault(
                            span,
                            "`"@ + self.tables().structs[id as int].name + "` has no field `"@
                                + name@ + "`"@,
                        ),
                    ),
                },
                _ => Err(
                    crate::typing::fault(
                        span,
                        "type "@ + named(self.tables(), bt) + " has no fields"@,
                    ),
                ),
            }),
            r matches Ok(ty) ==> known(self.ns(), self.ne(), ty),
    {
        proof {
            reveal(Analyzer::view);
        }
        proof {
            reveal(tables_known);
        }
        match bt {
            Type::Struct(id) => {
                let def = &self.structs[id as usize];
                assert(self.tables().structs[id as int] == def@);
                match def.field(name) {
                    Some((i, ty)) => {
                        assert(def@.fields[i as int].ty == ty);
                        Ok(ty)
                    },
                    None => Err(
                        error(span, cat5("`", def.name.as_str(), "` has no field `", name, "`")),
                    ),
                }
            },
            _ => Err(
                error(span, cat3("type ", self.name_of_type(bt).as_str(), " has no fields")),
            ),
        }
    }

    /// The type of a binary operation.
    fn check_binary(&self, op: BinOp, lt: Type, rt: Type, span: Span) -> (r: Result<
        Type,
        SemaError,
    >)
        requires
            known(self.ns(), self.ne(), lt),
        ensures
            type_result(r) == (match binary_type(self.tables(), op, lt, rt) {
                Ok(ty) => Ok(ty),
                Err(m) => Err(crate::typing::fault(span, m)),
            }),
            r matches Ok(ty) ==> ty == lt || ty == Type::Bool,
    {
        if lt != rt {
            return Err(
                error(
                    span,
                    cat4(
                        "operand type mismatch: ",
                        lt.to_text().as_str(),
                        " vs ",
                        rt.to_text().as_str(),
                    ),
                ),
            );
        }
        let number = lt == Type::Int || lt == Type::Float;
        match op {
            BinOp::Add | BinOp::Sub | BinOp::Mul | BinOp::Div | BinOp::Rem => if number || (op
                == BinOp::Add && lt == Type::Str) {
                Ok(lt)
            } else {
                Err(
                    error(
                        span,
                        cat2(
                            "arithmetic requires int or float, found ",
                            lt.to_text().as_str(),
                        ),
                    ),
                )
            },
            BinOp::Eq | BinOp::Ne => if is_opaque(lt) {
                Err(
                    error(
                        span,
                        cat2("cannot compare values of type ", self.name_of_type(lt).as_str()),
                    ),
                )
            } else {
                Ok(Type::Bool)
            },
            BinOp::Lt | BinOp::Le | BinOp::Gt | BinOp::Ge => if number {
                Ok(Type::Bool)
            } else {
                Err(
                    error(
                        span,
                        cat2(
                            "ordering comparison requires int or float, found ",
                            lt.to_text().as_str(),
                        ),
                    ),
                )
            },
            BinOp::And | BinOp::Or => if lt == Type::Bool {
                Ok(Type::Bool)
            } else {
                Err(error(span, cat2("`and`/`or` require bool, found ", lt.to_text().as_str())))
            },
        }
    }

    /// The type of a builtin of one argument, which has type `at`.
    fn check_builtin(&self, name: &str, at: Type, span: Span) -> (r: Result<Type, SemaError>)
        requires
            known(self.ns(), self.ne(), at),
            name@ == "print"@ || name@ == "str"@ || name@ == "len"@ || name@ == "pop"@,
        ensures
            type_result(r) == (match builtin_type(self.tables(), name@, at) {
                Ok(ty) => Ok(ty),
                Err(m) => Err(crate::typing::fault(span, m)),
            }),
            r matches Ok(ty) ==> known(self.ns(), self.ne(), ty),
    {
        if same(name, "print") {
            if is_opaque(at) {
                Err(
                    error(
                        span,
                        cat2("cannot print a value of type ", self.name_of_type(at).as_str()),
                    ),
                )
            } else {
                Ok(Type::Unit)
            }
        } else if same(name, "str") {
            if is_opaque(at) {
                Err(
                    error(
                        span,
                        cat3(
                            "cannot convert a value of type ",
                            self.name_of_type(at).as_str(),
                            " to str",
                        ),
                    ),
                )
            } else {
                Ok(Type::Str)
            }
        } else if same(name, "len") {
            match at {
                Type::Str | Type::Array(_, _) => Ok(Type::Int),
                _ => Err(
                    error(
                        span,
                        cat2("len requires a str or array, found ", at.to_text().as_str()),
                    ),
                ),
            }
        } else {
            match at.array_elem() {
                Some(elem) => Ok(elem),
                None => Err(
                    error(span, cat2("pop requires an array, found ", at.to_text().as_str())),
                ),
            }
        }
    }

    /// Type-checks the arguments of a call and returns its type.
    fn check_call(&self, name: &str, args: &mut Vec<Expr>, span: Span) -> (r: Result<
        Type,
        SemaError,
    >)
        requires
            self.wf(),
            exprs_known(self.ne(), exprs_v(old(args)@)),
        ensures
            (exprs_v(final(args)@), type_result(r)) == typed_call(
                self.tables(),
                self.scopes(),
                name@,
                exprs_v(old(args)@),
                span,
            ),
            r matches Ok(ty) ==> known(self.ns(), self.ne(), ty),
        decreases *old(args), 2nat,
    {
        proof {
            reveal(Analyzer::view);
        }
        proof {
            reveal(tables_known);
        }
        let n: usize = args.len();
        let ghost given = exprs_v(args@);
        assert(given.take(0) =~= Seq::empty());
        if is_builtin(name) {
            if n != arity(name) {
                return Err(error(span, count_message(name, n)));
            }
            if same(name, "find") {
                return match self.check_list(args, 0, &Wanted::Find, Ghost(*old(args))) {
                    Ok(_) => Ok(Type::Int),
                    Err(e) => Err(e),
                };
            }
            proof {
                assert(given[0] == args@[0]@);
            }
            let first = self.check_expr(&mut args[0]);
            assert(exprs_v(args@) =~= given.update(0, args@[0]@));
            let at = match first {
                Ok(ty) => ty,
                Err(e) => {
                    return Err(e);
                },
            };
            if !same(name, "push") {
                return self.check_builtin(name, at, span);
            }
            let elem = match at.array_elem() {
                Some(elem) => elem,
                None => {
                    return Err(
                        error(span, cat2("push requires an array, found ", at.to_text().as_str())),
                    );
                },
            };
            let ghost half = exprs_v(args@);
            proof {
                assert(given[1] == old(args)@[1]@);
            }
            let second = self.check_expr(&mut args[1]);
            assert(exprs_v(args@) =~= half.update(1, args@[1]@));
            let vt = match second {
                Ok(ty) => ty,
                Err(e) => {
                    return Err(e);
                },
            };
            if vt != elem {
                return Err(
                    error(
                        span,
                        cat4(
                            "cannot push ",
                            vt.to_text().as_str(),
                            " onto an array of ",
                            elem.to_text().as_str(),
                        ),
                    ),
                );
            }
            return Ok(Type::Unit);
        }
        if let Some(id) = self.struct_ids.get(name) {
            // Struct constructor: positional arguments, one per field.
            assert(self.tables().struct_ids[name@] == *id);
            let def = &self.structs[*id as usize];
            assert(self.tables().structs[*id as int] == def@);
            if n != def.fields.len() {
                return Err(
                    error(
                        span,
                        cat7(
                            "`",
                            def.name.as_str(),
                            "` has ",
                            dec_usize(def.fields.len()).as_str(),
                            " field(s), got ",
                            dec_usize(n).as_str(),
                            " argument(s)",
                        ),
                    ),
                );
            }
            return match self.check_list(args, 0, &Wanted::Fields { def }, Ghost(*old(args))) {
                Ok(_) => Ok(Type::Struct(*id)),
                Err(e) => Err(e),
            };
        }
        let sig = match self.functions.get(name) {
            Some(sig) => sig,
            None => {
                return Err(error(span, cat3("call to undefined function `", name, "`")));
            },
        };
        assert(self.tables().functions[name@] == sig@);
        if n < sig.params.len() || (!sig.varargs && n != sig.params.len()) {
            let least = if sig.varargs {
                "at least "
            } else {
                ""
            };
            return Err(
                error(
                    span,
                    cat7(
                        "`",
                        name,
                        "` expects ",
                        least,
                        dec_usize(sig.params.len()).as_str(),
                        " argument(s), got ",
                        dec_usize(n).as_str(),
                    ),
                ),
            );
        }
        match self.check_list(args, 0, &Wanted::Params { name, sig, span }, Ghost(*old(args))) {
            Ok(_) => Ok(sig.ret),
            Err(e) => Err(e),
        }
    }

    /// Type-checks the arguments of a method call and returns its type.
    fn check_method(
        &self,
        rt: Type,
        recv_span: Span,
        name: &str,
        args: &mut Vec<Expr>,
        span: Span,
    ) -> (r: Result<Type, SemaError>)
        requires
            self.wf(),
            known(self.ns(), self.ne(), rt),
            exprs_known(self.ne(), exprs_v(old(args)@)),
        ensures
            (exprs_v(final(args)@), type_result(r)) == typed_method(
                self.tables(),
                self.scopes(),
                rt,
                recv_span,
                name@,
                exprs_v(old(args)@),
                span,
            ),
            r matches Ok(ty) ==> known(self.ns(), self.ne(), ty),
        decreases *old(args), 2nat,
    {
        proof {
            reveal(Analyzer::view);
        }
        proof {
            reveal(tables_known);
        }
        let n: usize = args.len();
        let ghost given = exprs_v(args@);
        assert(given.take(0) =~= Seq::empty());
        let id = match rt {
            Type::Struct(id) => id,
            _ => {
                return Err(
                    error(
                        recv_span,
                        cat3("type ", self.name_of_type(rt).as_str(), " has no methods to call"),
                    ),
                );
            },
        };
        let owner = &self.structs[id as usize];
        assert(self.tables().structs[id as int] == owner@);
        assert(self.tables().methods[id as int] == sigs_v(self.methods@[id as int]@));
        let sig = match self.methods[id as usize].get(name) {
            Some(sig) => sig,
            None => {
                return Err(
                    error(
                        span,
                        cat5("`", owner.name.as_str(), "` has no method `", name, "`"),
                    ),
                );
            },
        };
        assert(self.tables().methods[id as int][name@] == sig@);
        if n != sig.params.len() {
            return Err(
                error(
                    span,
                    cat8(
                        "method `",
                        name,
                        "` of `",
                        owner.name.as_str(),
                        "` expects ",
                        dec_usize(sig.params.len()).as_str(),
                        " argument(s), got ",
                        dec_usize(n).as_str(),
                    ),
                ),
            );
        }
        match self.check_list(args, 0, &Wanted::Method { name, sig }, Ghost(*old(args))) {
            Ok(_) => Ok(sig.ret),
            Err(e) => Err(e),
        }
    }

    /// Type-checks the elements of an array literal and returns its type.
    fn check_array(&self, es: &mut Vec<Expr>, span: Span) -> (r: Result<Type, SemaError>)
        requires
            self.wf(),
            exprs_known(self.ne(), exprs_v(old(es)@)),
        ensures
            (exprs_v(final(es)@), type_result(r)) == typed_array(
                self.tables(),
                self.scopes(),
                exprs_v(old(es)@),
                span,
            ),
            r matches Ok(ty) ==> known(self.ns(), self.ne(), ty),
        decreases *old(es), 2nat,
    {
        let ghost given = exprs_v(es@);
        if es.len() == 0 {
            return Err(
                error(span, String::from_str("cannot infer the element type of `[]` here")),
            );
        }
        assert(given[0] == es@[0]@);
        let first = self.check_expr(&mut es[0]);
        let ghost head = es@[0]@;
        assert(exprs_v(es@) =~= given.update(0, head));
        let ty = match first {
            Ok(ty) => ty,
            Err(e) => {
                return Err(e);
            },
        };
        let array = match nested_array(ty) {
            Some(array) => array,
            None => {
                return Err(
                    error(
                        span,
                        cat3("arrays of ", ty.to_text().as_str(), " are not supported"),
                    ),
                );
            },
        };
        match self.check_list(es, 1, &Wanted::Elems { first: ty }, Ghost(*old(es))) {
            Ok(_) => Ok(array),
            Err(e) => Err(e),
        }
    }

    /// Type-checks the arguments from position `from` on; those are the ones
    /// of `all`.
    fn check_list(
        &self,
        args: &mut Vec<Expr>,
        from: usize,
        want: &Wanted,
        Ghost(all): Ghost<Vec<Expr>>,
    ) -> (r: Result<(), SemaError>)
        requires
            self.wf(),
            exprs_known(self.ne(), exprs_v(all@)),
            from <= old(args)@.len() == all@.len(),
            forall|j: int| from <= j < all@.len() ==> #[trigger] old(args)@[j] == all@[j],
            want.fits(all@.len()),
            want.known(self.ns(), self.ne()),
        ensures
            final(args)@.len() == all@.len(),
            ({
                let (rest, r1) = typed_list(
                    self.tables(),
                    self.scopes(),
                    exprs_v(all@),
                    want@,
                    from as int,
                );
                &&& exprs_v(final(args)@) == exprs_v(old(args)@).take(from as int) + rest
                &&& unit_result(r) == r1
            }),
        decreases all, 1nat,
    {
        let ghost given = exprs_v(all@);
        let ghost t = self.tables();
        let ghost sc = self.scopes();
        let ghost whole = typed_list(t, sc, given, want@, from as int);
        let ghost before = exprs_v(args@).take(from as int);
        let mut i: usize = from;
        assert(exprs_v(args@) =~= before + given.skip(from as int));
        assert(before + whole.0 =~= exprs_v(args@).take(i as int) + whole.0);
        while i < args.len()
            invariant
                self.wf(),
                t == self.tables(),
                sc == self.scopes(),
                exprs_known(self.ne(), given),
                given == exprs_v(all@),
                from <= i <= args@.len() == all@.len(),
                forall|j: int| i <= j < all@.len() ==> #[trigger] args@[j] == all@[j],
                want.fits(all@.len()),
                want.known(self.ns(), self.ne()),
                whole == typed_list(t, sc, given, want@, from as int),
                before == exprs_v(old(args)@).take(from as int),
                before + whole.0 == exprs_v(args@).take(i as int) + typed_list(
                    t,
                    sc,
                    given,
                    want@,
                    i as int,
                ).0,
                whole.1 == typed_list(t, sc, given, want@, i as int).1,
            decreases args@.len() - i,
        {
            let ghost prefix = exprs_v(args@).take(i as int);
            assert(given[i as int] == args@[i as int]@);
            assert(decreases_to!(all => all@[i as int]));
            let checked = self.check_expr(&mut args[i]);
            let ghost head = args@[i as int]@;
            proof {
                assert(exprs_v(args@) =~= prefix + (seq![head] + given.skip(i + 1)));
                assert(exprs_v(args@).take(i + 1) =~= prefix + seq![head]);
                let rest = typed_list(t, sc, given, want@, i + 1).0;
                assert(prefix + (seq![head] + rest) =~= prefix + seq![head] + rest);
            }
            match checked {
                Ok(at) => {
                    if let Some(e) = self.refused(want, i, at, args[i].span, Ghost(all@.len())) {
                        return Err(e);
                    }
                },
                Err(e) => {
                    return Err(e);
                },
            }
            i = i + 1;
        }
        assert(exprs_v(args@).take(i as int) + Seq::empty() =~= exprs_v(args@));
        Ok(())
    }

    /// The error of the argument at position `i`, which has type `at`.
    fn refused(&self, want: &Wanted, i: usize, at: Type, span: Span, Ghost(n): Ghost<nat>) -> (r:
        Option<SemaError>)
        requires
            i < n,
            i < usize::MAX,
            want.fits(n),
            want.known(self.ns(), self.ne()),
            known(self.ns(), self.ne(), at),
        ensures
            match r {
                Some(e) => refusal(self.tables(), want@, i as int, at, span) == Some(e@),
                None => refusal(self.tables(), want@, i as int, at, span) is None,
            },
    {
        match want {
            Wanted::Payload { name, fields } => {
                let expected: Type = fields[i];
                if at != expected {
                    let wanted = self.name_of_type(expected);
                    let found = self.name_of_type(at);
                    return Some(
                        error(
                            span,
                            cat6(
                                "payload of `",
                                name,
                                "`: expected ",
                                wanted.as_str(),
                                ", found ",
                                found.as_str(),
                            ),
                        ),
                    );
                }
            },
            Wanted::Find => {
                if at != Type::Str {
                    return Some(
                        error(
                            span,
                            cat2("find requires str arguments, found ", at.to_text().as_str()),
                        ),
                    );
                }
            },
            Wanted::Fields { def } => {
                let field = &def.fields[i];
                assert(def@.fields[i as int] == field@);
                if at != field.ty {
                    let wanted = self.name_of_type(field.ty);
                    let found = self.name_of_type(at);
                    return Some(
                        error(
                            span,
                            cat8(
                                "field `",
                                field.name.as_str(),
                                "` of `",
                                def.name.as_str(),
                                "` is ",
                                wanted.as_str(),
                                ", found ",
                                found.as_str(),
                            ),
                        ),
                    );
                }
            },
            Wanted::Params { name, sig, span: call } => {
                if i < sig.params.len() {
                    let expected: Type = sig.params[i];
                    if at != expected {
                        return Some(
                            error(
                                *call,
                                cat8(
                                    "argument ",
                                    dec_usize(i + 1).as_str(),
                                    " of `",
                                    name,
                                    "`: expected ",
                                    expected.to_text().as_str(),
                                    ", found ",
                                    at.to_text().as_str(),
                                ),
                            ),
                        );
                    }
                } else if at == Type::Unit {
                    return Some(
                        error(*call, String::from_str("cannot pass a unit value as a vararg")),
                    );
                }
            },
            Wanted::Method { name, sig } => {
                let expected: Type = sig.params[i];
                if at != expected {
                    let wanted = self.name_of_type(expected);
                    let found = self.name_of_type(at);
                    return Some(
                        error(
                            span,
                            cat8(
                                "argument ",
                                dec_usize(i + 1).as_str(),
                                " of `",
                                name,
                                "`: expected ",
                                wanted.as_str(),
                                ", found ",
                                found.as_str(),
                            ),
                        ),
                    );
                }
            },
            Wanted::Elems { first } => {
                if at != *first {
                    return Some(
                        error(
                            span,
                            cat4(
                                "array elements must all have the same type: expected ",
                                first.to_text().as_str(),
                                ", found ",
                                at.to_text().as_str(),
                            ),
                        ),
                    );
                }
            },
        }
        None
    }

    // ----- statements -----------------------------------------------------------------
    /// Only the environment changed; a success leaves as many scopes open as
    /// there were, a failure no fewer.
    pub open spec fn moved(&self, before: Analyzer, ok: bool) -> bool {
        &&& self.wf()
        &&& self@ == (State { env: self@.env, ..before@ })
        &&& self.scopes().len() >= before.scopes().len()
        &&& ok ==> self.scopes().len() == before.scopes().len()
    }

    /// An expression that must have type `want`; `what` names it in the error.
    fn check_as(&self, expr: &mut Expr, want: Type, what: &str) -> (r: Result<(), SemaError>)
        requires
            self.wf(),
            expr_known(self.ne(), old(expr)@),
        ensures
            (final(expr)@, unit_result(r)) == typed_as(
                self.tables(),
                self.scopes(),
                old(expr)@,
                want,
                what@,
            ),
    {
        let ty = match self.check_expr(expr) {
            Ok(v) => v,
            Err(e) => {
                return Err(e);
            },
        };
        if ty != want {
            return Err(error(expr.span, cat2(what, ty.to_text().as_str())));
        }
        Ok(())
    }

    /// Declares a binding.
    fn bind(&mut self, name: &str, ty: Type, span: Span) -> (r: Result<(), SemaError>)
        requires
            old(self).wf(),
            known(old(self).ns(), old(self).ne(), ty),
        ensures
            final(self).moved(*old(self), true),
            (final(self)@.env, unit_result(r)) == bound(old(self)@.env, name@, ty, span),
    {
        if !self.declare(name, ty) {
            return Err(error(span, cat3("`", name, "` is already defined in this scope")));
        }
        Ok(())
    }

    fn check_let(
        &mut self,
        name: &str,
        ty: &mut Option<Type>,
        value: &mut Expr,
        Ghost(line): Ghost<usize>,
    ) -> (r: Result<(), SemaError>)
        requires
            old(self).wf(),
            expr_known(old(self).ne(), old(value)@),
            *old(ty) matches Some(t) ==> known(old(self).ns(), old(self).ne(), t),
        ensures
            final(self).moved(*old(self), true),
            (
                StmtV::Let { name: name@, ty: *final(ty), value: final(value)@, line },
                final(self)@.env,
                unit_result(r),
            ) == checked_let(
                old(self).tables(),
                old(self)@.env,
                name@,
                *old(ty),
                old(value)@,
                line,
            ),
    {
        proof {
            reveal(checked_let);
        }
        // An empty array literal has no type of its own; it takes the
        // annotated one (`let xs: [int] = []`).
        let empty = match &value.kind {
            ExprKind::ArrayLit(es) => es.len() == 0,
            _ => false,
        };
        assert(value@.kind == kind_v(value.kind));
        assert(empty == is_empty_array(value@));
        if empty {
            return match *ty {
                Some(Type::Array(base, dims)) => {
                    value.ty = Some(Type::Array(base, dims));
                    self.bind(name, Type::Array(base, dims), value.span)
                },
                _ => Err(
                    error(
                        value.span,
                        cat3(
                            "cannot infer the element type of `[]`; annotate the binding, e.g. `let ",
                            name,
                            ": [int] = []`",
                        ),
                    ),
                ),
            };
        }
        let inferred = match self.check_expr(value) {
            Ok(v) => v,
            Err(e) => {
                return Err(e);
            },
        };
        if inferred == Type::Unit {
            return Err(
                error(
                    value.span,
                    cat3("cannot bind `", name, "` to a unit (no-value) expression"),
                ),
            );
        }
        if let Some(annotated) = *ty {
            if annotated != inferred {
                return Err(
                    error(
                        value.span,
                        cat6(
                            "type mismatch: `",
                            name,
                            "` declared as ",
                            annotated.to_text().as_str(),
                            " but initialized with ",
                            inferred.to_text().as_str(),
                        ),
                    ),
                );
            }
        }
        *ty = Some(inferred);
        self.bind(name, inferred, value.span)
    }

    fn check_assign(&self, name: &str, value: &mut Expr, line: usize) -> (r: Result<(), SemaError>)
        requires
            self.wf(),
            expr_known(self.ne(), old(value)@),
        ensures
            (
                StmtV::Assign { name: name@, value: final(value)@, line },
                unit_result(r),
            ) == checked_assign(self.tables(), self@.env, name@, old(value)@, line),
    {
        proof {
            reveal(checked_assign);
        }
        let var = match self.variable(name) {
            Some(ty) => ty,
            None => {
                return Err(
                    error(
                        Span::line_only(line),
                        cat3("assignment to undefined variable `", name, "`"),
                    ),
                );
            },
        };
        let vt = match self.check_expr(value) {
            Ok(v) => v,
            Err(e) => {
                return Err(e);
            },
        };
        if vt != var {
            return Err(
                error(
                    value.span,
                    cat6(
                        "type mismatch: cannot assign ",
                        vt.to_text().as_str(),
                        " to `",
                        name,
                        "` of type ",
                        var.to_text().as_str(),
                    ),
                ),
            );
        }
        Ok(())
    }

    fn check_index_assign(
        &self,
        target: &mut Expr,
        index: &mut Expr,
        value: &mut Expr,
        Ghost(line): Ghost<usize>,
    ) -> (r: Result<(), SemaError>)
        requires
            self.wf(),
            expr_known(self.ne(), old(target)@),
            expr_known(self.ne(), old(index)@),
            expr_known(self.ne(), old(value)@),
        ensures
            (
                StmtV::IndexAssign {
                    target: final(target)@,
                    index: final(index)@,
                    value: final(value)@,
                    line,
                },
                unit_result(r),
            ) == checked_index_assign(
                self.tables(),
                self@.env,
                old(target)@,
                old(index)@,
                old(value)@,
                line,
            ),
    {
        proof {
            reveal(checked_index_assign);
        }
        let tt = match self.check_expr(target) {
            Ok(v) => v,
            Err(e) => {
                return Err(e);
            },
        };
        let elem = match tt.array_elem() {
            Some(elem) => elem,
            None => {
                return Err(
                    error(
                        target.span,
                        cat2("cannot index-assign into a value of type ", tt.to_text().as_str()),
                    ),
                );
            },
        };
        let it = match self.check_expr(index) {
            Ok(v) => v,
            Err(e) => {
                return Err(e);
            },
        };
        if it != Type::Int {
            return Err(
                error(index.span, cat2("array index must be int, found ", it.to_text().as_str())),
            );
        }
        let vt = match self.check_expr(value) {
            Ok(v) => v,
            Err(e) => {
                return Err(e);
            },
        };
        if vt != elem {
            return Err(
                error(
                    value.span,
                    cat4(
                        "type mismatch: cannot store ",
                        vt.to_text().as_str(),
                        " in an array of ",
                        elem.to_text().as_str(),
                    ),
                ),
            );
        }
        Ok(())
    }

    fn check_field_assign(
        &self,
        target: &mut Expr,
        field: &str,
        value: &mut Expr,
        Ghost(line): Ghost<usize>,
    ) -> (r: Result<(), SemaError>)
        requires
            self.wf(),
            expr_known(self.ne(), old(target)@),
            expr_known(self.ne(), old(value)@),
        ensures
            (
                StmtV::FieldAssign {
                    target: final(target)@,
                    field: field@,
                    value: final(value)@,
                    line,
                },
                unit_result(r),
            ) == checked_field_assign(
                self.tables(),
                self@.env,
                old(target)@,
                field@,
                old(value)@,
                line,
            ),
    {
        proof {
            reveal(Analyzer::view);
        }
        proof {
            reveal(checked_field_assign);
        }
        proof {
            reveal(tables_known);
        }
        let bt = match self.check_expr(target) {
            Ok(v) => v,
            Err(e) => {
                return Err(e);
            },
        };
        let id = match bt {
            Type::Struct(id) => id,
            _ => {
                return Err(
                    error(
                        target.span,
                        cat3("type ", self.name_of_type(bt).as_str(), " has no fields to assign"),
                    ),
                );
            },
        };
        let def = &self.structs[id as usize];
        assert(self.tables().structs[id as int] == def@);
        let ft = match def.field(field) {
            Some((i, ty)) => {
                assert(def@.fields[i as int].ty == ty);
                ty
            },
            None => {
                return Err(
                    error(
                        target.span,
                        cat5("`", def.name.as_str(), "` has no field `", field, "`"),
                    ),
                );
            },
        };
        let vt = match self.check_expr(value) {
            Ok(v) => v,
            Err(e) => {
                return Err(e);
            },
        };
        if vt != ft {
            return Err(
                error(
                    value.span,
                    cat8(
                        "type mismatch: field `",
                        field,
                        "` of `",
                        def.name.as_str(),
                        "` is ",
                        self.name_of_type(ft).as_str(),
                        ", found ",
                        self.name_of_type(vt).as_str(),
                    ),
                ),
            );
        }
        Ok(())
    }

    fn check_return(&self, value: &mut Option<Expr>, line: usize) -> (r: Result<(), SemaError>)
        requires
            self.wf(),
            *old(value) matches Some(e) ==> expr_known(self.ne(), e@),
        ensures
            (
                StmtV::Return { value: opt_expr_v(*final(value)), line },
                unit_result(r),
            ) == checked_return(
                self.tables(),
                self@.ret,
                self@.env,
                opt_expr_v(*old(value)),
                line,
            ),
    {
        proof {
            reveal(Analyzer::view);
        }
        proof {
            reveal(checked_return);
        }
        let (ty, span) = match value {
            Some(e) => {
                let ty = match self.check_expr(e) {
                    Ok(v) => v,
                    Err(e) => {
                        return Err(e);
                    },
                };
                (ty, e.span)
            },
            None => (Type::Unit, Span::line_only(line)),
        };
        if ty != self.current_ret {
            return Err(
                error(
                    span,
                    cat4(
                        "return type mismatch: function returns ",
                        self.current_ret.to_text().as_str(),
                        " but got ",
                        ty.to_text().as_str(),
                    ),
                ),
            );
        }
        Ok(())
    }

    /// An error where no loop encloses the statement.
    fn check_jump(&self, line: usize) -> (r: Result<(), SemaError>)
        ensures
            unit_result(r) == checked_jump(self@.env, line),
    {
        proof {
            reveal(Analyzer::view);
        }
        if self.in_loop {
            Ok(())
        } else {
            Err(
                error(
                    Span::line_only(line),
                    String::from_str("`break`/`continue` outside of a loop"),
                ),
            )
        }
    }

    fn check_stmt(&mut self, stmt: &mut Stmt) -> (r: Result<(), SemaError>)
        requires
            old(self).wf(),
            stmt_known(old(self).ns(), old(self).ne(), old(stmt)@),
        ensures
            final(self).moved(*old(self), r is Ok),
            (final(stmt)@, final(self)@.env, unit_result(r)) == checked(
                old(self).tables(),
                old(self)@.ret,
                old(self)@.env,
                old(stmt)@,
            ),
        decreases *old(stmt), 1nat,
    {
        match stmt {
            Stmt::Let { name, ty, value, line } => self.check_let(
                name.as_str(),
                ty,
                value,
                Ghost(*line),
            ),
            Stmt::Assign { name, value, line } => self.check_assign(name.as_str(), value, *line),
            Stmt::IndexAssign { target, index, value, line } => self.check_index_assign(
                target,
                index,
                value,
                Ghost(*line),
            ),
            Stmt::FieldAssign { target, field, value, line } => self.check_field_assign(
                target,
                field.as_str(),
                value,
                Ghost(*line),
            ),
            Stmt::Expr(e) => match self.check_expr(e) {
                Ok(_) => Ok(()),
                Err(e) => Err(e),
            },
            Stmt::Return { value, line } => self.check_return(value, *line),
            Stmt::If { .. } => self.check_if(stmt),
            Stmt::While { .. } => self.check_while(stmt),
            Stmt::For { .. } => self.check_range(stmt),
            Stmt::ForEach { .. } => self.check_each(stmt),
            Stmt::Match { .. } => self.check_match(stmt),
            Stmt::Break { line } => self.check_jump(*line),
            Stmt::Continue { line } => self.check_jump(*line),
            Stmt::Retain(_) => Ok(()),
            Stmt::Release(_) => Ok(()),
        }
    }

    fn check_if(&mut self, stmt: &mut Stmt) -> (r: Result<(), SemaError>)
        requires
            old(self).wf(),
            stmt_known(old(self).ns(), old(self).ne(), old(stmt)@),
            *old(stmt) is If,
        ensures
            final(self).moved(*old(self), r is Ok),
            (final(stmt)@, final(self)@.env, unit_result(r)) == checked_if(
                old(self).tables(),
                old(self)@.ret,
                old(self)@.env,
                old(stmt)@,
            ),
        decreases *old(stmt), 0nat,
    {
        match stmt {
            Stmt::If { cond, then_block, else_block } => {
                match self.check_as(cond, Type::Bool, "if condition must be bool, found ") {
                    Ok(_) => {},
                    Err(e) => {
                        return Err(e);
                    },
                }
                match self.check_block(then_block) {
                    Ok(_) => {},
                    Err(e) => {
                        return Err(e);
                    },
                }
                match else_block {
                    Some(b) => self.check_block(b),
                    None => Ok(()),
                }
            },
            _ => Ok(()),
        }
    }

    fn check_while(&mut self, stmt: &mut Stmt) -> (r: Result<(), SemaError>)
        requires
            old(self).wf(),
            stmt_known(old(self).ns(), old(self).ne(), old(stmt)@),
            *old(stmt) is While,
        ensures
            final(self).moved(*old(self), r is Ok),
            (final(stmt)@, final(self)@.env, unit_result(r)) == checked_while(
                old(self).tables(),
                old(self)@.ret,
                old(self)@.env,
                old(stmt)@,
            ),
        decreases *old(stmt), 0nat,
    {
        match stmt {
            Stmt::While { cond, body } => {
                match self.check_as(cond, Type::Bool, "while condition must be bool, found ") {
                    Ok(_) => {},
                    Err(e) => {
                        return Err(e);
                    },
                }
                self.check_loop(body)
            },
            _ => Ok(()),
        }
    }

    fn check_range(&mut self, stmt: &mut Stmt) -> (r: Result<(), SemaError>)
        requires
            old(self).wf(),
            stmt_known(old(self).ns(), old(self).ne(), old(stmt)@),
            *old(stmt) is For,
        ensures
            final(self).moved(*old(self), r is Ok),
            (final(stmt)@, final(self)@.env, unit_result(r)) == checked_range(
                old(self).tables(),
                old(self)@.ret,
                old(self)@.env,
                old(stmt)@,
            ),
        decreases *old(stmt), 0nat,
    {
        match stmt {
            Stmt::For { var, start, end, body, line: _ } => {
                match self.check_as(start, Type::Int, "range start must be int, found ") {
                    Ok(_) => {},
                    Err(e) => {
                        return Err(e);
                    },
                }
                match self.check_as(end, Type::Int, "range end must be int, found ") {
                    Ok(_) => {},
                    Err(e) => {
                        return Err(e);
                    },
                }
                self.check_for(var.as_str(), Type::Int, body)
            },
            _ => Ok(()),
        }
    }

    fn check_each(&mut self, stmt: &mut Stmt) -> (r: Result<(), SemaError>)
        requires
            old(self).wf(),
            stmt_known(old(self).ns(), old(self).ne(), old(stmt)@),
            *old(stmt) is ForEach,
        ensures
            final(self).moved(*old(self), r is Ok),
            (final(stmt)@, final(self)@.env, unit_result(r)) == checked_each(
                old(self).tables(),
                old(self)@.ret,
                old(self)@.env,
                old(stmt)@,
            ),
        decreases *old(stmt), 0nat,
    {
        match stmt {
            Stmt::ForEach { var, iterable, body, line: _ } => {
                let it = match self.check_expr(iterable) {
                    Ok(v) => v,
                    Err(e) => {
                        return Err(e);
                    },
                };
                match it.array_elem() {
                    Some(elem) => self.check_for(var.as_str(), elem, body),
                    None => Err(
                        error(
                            iterable.span,
                            cat2("for-in iterates over an array, found ", it.to_text().as_str()),
                        ),
                    ),
                }
            },
            _ => Ok(()),
        }
    }

    fn check_match(&mut self, stmt: &mut Stmt) -> (r: Result<(), SemaError>)
        requires
            old(self).wf(),
            stmt_known(old(self).ns(), old(self).ne(), old(stmt)@),
            *old(stmt) is Match,
        ensures
            final(self).moved(*old(self), r is Ok),
            (final(stmt)@, final(self)@.env, unit_result(r)) == checked_match(
                old(self).tables(),
                old(self)@.ret,
                old(self)@.env,
                old(stmt)@,
            ),
        decreases *old(stmt), 0nat,
    {
        match stmt {
            Stmt::Match { scrutinee, arms, line } => {
                let st = match self.check_expr(scrutinee) {
                    Ok(v) => v,
                    Err(e) => {
                        return Err(e);
                    },
                };
                match st {
                    Type::Enum(id) => self.check_arms(id, arms, *line),
                    _ => Err(
                        error(
                            scrutinee.span,
                            cat2(
                                "match scrutinee must be an enum, found ",
                                self.name_of_type(st).as_str(),
                            ),
                        ),
                    ),
                }
            },
            _ => Ok(()),
        }
    }

    fn check_block(&mut self, block: &mut Vec<Stmt>) -> (r: Result<(), SemaError>)
        requires
            old(self).wf(),
            block_known(old(self).ns(), old(self).ne(), block_v(old(block)@)),
        ensures
            final(self).moved(*old(self), r is Ok),
            (block_v(final(block)@), final(self)@.env, unit_result(r)) == checked_block(
                old(self).tables(),
                old(self)@.ret,
                old(self)@.env,
                block_v(old(block)@),
            ),
        decreases *old(block), 1nat,
    {
        let ghost t = self.tables();
        let ghost ret = self@.ret;
        let ghost given = block_v(block@);
        self.open_scope();
        let ghost inner = self@.env;
        let ghost whole = checked_stmts(t, ret, inner, given, 0);
        let mut i: usize = 0;
        assert(whole.0 =~= block_v(block@).take(0) + whole.0);
        while i < block.len()
            invariant
                self.wf(),
                self@ == (State { env: self@.env, ..old(self)@ }),
                t == self.tables(),
                ret == self@.ret,
                self.scopes().len() == old(self).scopes().len() + 1,
                given == block_v(old(block)@),
                block_known(self.ns(), self.ne(), given),
                i <= block@.len() == given.len(),
                forall|j: int| i <= j < given.len() ==> #[trigger] block@[j] == old(block)@[j],
                inner == (Env { scopes: pushed(old(self).scopes()), ..old(self)@.env }),
                whole == checked_stmts(t, ret, inner, given, 0),
                ({
                    let rest = checked_stmts(t, ret, self@.env, given, i as int);
                    &&& whole.0 == block_v(block@).take(i as int) + rest.0
                    &&& whole.1 == rest.1
                    &&& whole.2 == rest.2
                }),
            decreases block@.len() - i,
        {
            let ghost prefix = block_v(block@).take(i as int);
            assert(given[i as int] == block@[i as int]@);
            assert(decreases_to!(*old(block) => old(block)@[i as int]));
            let checked = self.check_stmt(&mut block[i]);
            let ghost head = block@[i as int]@;
            proof {
                assert(block_v(block@) =~= prefix + (seq![head] + given.skip(i + 1)));
                assert(block_v(block@).take(i + 1) =~= prefix + seq![head]);
                let rest = checked_stmts(t, ret, self@.env, given, i + 1).0;
                assert(prefix + (seq![head] + rest) =~= prefix + seq![head] + rest);
            }
            match checked {
                Ok(_) => {},
                Err(e) => {
                    return Err(e);
                },
            }
            i = i + 1;
        }
        assert(block_v(block@).take(i as int) + Seq::empty() =~= block_v(block@));
        self.close_scope();
        Ok(())
    }

    /// Type-checks the body of a loop.
    fn check_loop(&mut self, body: &mut Vec<Stmt>) -> (r: Result<(), SemaError>)
        requires
            old(self).wf(),
            block_known(old(self).ns(), old(self).ne(), block_v(old(body)@)),
        ensures
            final(self).moved(*old(self), r is Ok),
            (block_v(final(body)@), final(self)@.env, unit_result(r)) == checked_loop(
                old(self).tables(),
                old(self)@.ret,
                old(self)@.env,
                block_v(old(body)@),
            ),
        decreases *old(body), 2nat,
    {
        let outer = self.set_in_loop(true);
        match self.check_block(body) {
            Ok(_) => {},
            Err(e) => {
                return Err(e);
            },
        }
        self.set_in_loop(outer);
        Ok(())
    }

    /// Type-checks the body of a loop over a variable, which lives in its own
    /// scope wrapping the body.
    fn check_for(&mut self, var: &str, ty: Type, body: &mut Vec<Stmt>) -> (r: Result<
        (),
        SemaError,
    >)
        requires
            old(self).wf(),
            known(old(self).ns(), old(self).ne(), ty),
            block_known(old(self).ns(), old(self).ne(), block_v(old(body)@)),
        ensures
            final(self).moved(*old(self), r is Ok),
            (block_v(final(body)@), final(self)@.env, unit_result(r)) == checked_for(
                old(self).tables(),
                old(self)@.ret,
                old(self)@.env,
                var@,
                ty,
                block_v(old(body)@),
            ),
        decreases *old(body), 3nat,
    {
        self.open_scope();
        self.declare(var, ty);
        match self.check_loop(body) {
            Ok(_) => {},
            Err(e) => {
                return Err(e);
            },
        }
        self.close_scope();
        Ok(())
    }

    /// Type-checks the arms of a match on an enum, and that they cover it.
    #[verifier::rlimit(60)]
    fn check_arms(&mut self, id: u32, arms: &mut Vec<MatchArm>, line: usize) -> (r: Result<
        (),
        SemaError,
    >)
        requires
            old(self).wf(),
            id < old(self).ne(),
            arms_known(old(self).ns(), old(self).ne(), arms_v(old(arms)@)),
        ensures
            final(self).moved(*old(self), r is Ok),
            (arms_v(final(arms)@), final(self)@.env, unit_result(r)) == checked_arms(
                old(self).tables(),
                old(self)@.ret,
                old(self)@.env,
                old(self).tables().enums[id as int],
                arms_v(old(arms)@),
                0,
                Seq::new(
                    old(self).tables().enums[id as int].variants.len(),
                    |i: int| false,
                ),
                false,
                line,
            ),
        decreases *old(arms), 1nat,
    {
        proof {
            reveal(Analyzer::view);
        }
        let ghost t = self.tables();
        let ghost ret = self@.ret;
        let ghost given = arms_v(arms@);
        let ghost def = t.enums[id as int];
        assert(def == self.enums@[id as int]@);
        let n: usize = self.enums[id as usize].variants.len();
        let mut covered: Vec<bool> = Vec::new();
        let mut k: usize = 0;
        while k < n
            invariant
                k <= n,
                covered@ =~= Seq::new(k as nat, |i: int| false),
            decreases n - k,
        {
            covered.push(false);
            k = k + 1;
        }
        let ghost none = Seq::new(def.variants.len(), |i: int| false);
        assert(covered@ =~= none);
        let mut wild = false;
        let ghost start = self@.env;
        let ghost whole = checked_arms(t, ret, start, def, given, 0, none, false, line);
        let mut i: usize = 0;
        assert(whole.0 =~= arms_v(arms@).take(0) + whole.0);
        while i < arms.len()
            invariant
                self.moved(*old(self), true),
                t == self.tables(),
                ret == self@.ret,
                id < self.ne(),
                def == t.enums[id as int],
                given == arms_v(old(arms)@),
                arms_known(self.ns(), self.ne(), given),
                i <= arms@.len() == given.len(),
                covered@.len() == def.variants.len(),
                forall|j: int| i <= j < given.len() ==> #[trigger] arms@[j] == old(arms)@[j],
                start == old(self)@.env,
                none == Seq::new(def.variants.len(), |i: int| false),
                whole == checked_arms(t, ret, start, def, given, 0, none, false, line),
                ({
                    let rest = checked_arms(
                        t,
                        ret,
                        self@.env,
                        def,
                        given,
                        i as int,
                        covered@,
                        wild,
                        line,
                    );
                    &&& whole.0 == arms_v(arms@).take(i as int) + rest.0
                    &&& whole.1 == rest.1
                    &&& whole.2 == rest.2
                }),
            decreases arms@.len() - i,
        {
            let ghost prefix = arms_v(arms@).take(i as int);
            assert(given[i as int] == arms@[i as int]@);
            assert(decreases_to!(*old(arms) => old(arms)@[i as int]));
            let checked = self.check_arm(id, &mut arms[i], &mut covered, &mut wild, line);
            let ghost head = arms@[i as int]@;
            proof {
                assert(arms_v(arms@) =~= prefix + (seq![head] + given.skip(i + 1)));
                assert(arms_v(arms@).take(i + 1) =~= prefix + seq![head]);
                let rest = checked_arms(
                    t,
                    ret,
                    self@.env,
                    def,
                    given,
                    i + 1,
                    covered@,
                    wild,
                    line,
                ).0;
                assert(prefix + (seq![head] + rest) =~= prefix + seq![head] + rest);
            }
            match checked {
                Ok(_) => {},
                Err(e) => {
                    return Err(e);
                },
            }
            i = i + 1;
        }
        assert(arms_v(arms@).take(i as int) + Seq::empty() =~= arms_v(arms@));
        if wild || every(&covered) {
            return Ok(());
        }
        assert(def == self.enums@[id as int]@);
        let names = missing_names(&self.enums[id as usize], &covered);
        Err(
            error(
                Span::line_only(line),
                cat5(
                    "non-exhaustive match on `",
                    self.enums[id as usize].name.as_str(),
                    "`: missing ",
                    names.as_str(),
                    " (add the variant(s) or a `_` arm)",
                ),
            ),
        )
    }

    /// Type-checks one arm of a match, and marks what it covers.
    fn check_arm(
        &mut self,
        id: u32,
        arm: &mut MatchArm,
        covered: &mut Vec<bool>,
        wild: &mut bool,
        line: usize,
    ) -> (r: Result<(), SemaError>)
        requires
            old(self).wf(),
            id < old(self).ne(),
            arm_known(old(self).ns(), old(self).ne(), old(arm)@),
            old(covered)@.len() == old(self).tables().enums[id as int].variants.len(),
        ensures
            final(self).moved(*old(self), r is Ok),
            (final(arm)@, final(self)@.env, unit_result(r)) == checked_arm(
                old(self).tables(),
                old(self)@.ret,
                old(self)@.env,
                old(self).tables().enums[id as int],
                old(arm)@,
                old(covered)@,
                *old(wild),
                line,
            ),
            r is Ok ==> final(covered)@ == covering(
                old(self).tables().enums[id as int],
                old(covered)@,
                old(arm)@,
            ),
            final(covered)@.len() == old(covered)@.len(),
            r is Ok ==> *final(wild) == (*old(wild) || old(arm)@.pattern is Wildcard),
        decreases *old(arm), 0nat,
    {
        proof {
            reveal(Analyzer::view);
        }
        proof {
            reveal(tables_known);
        }
        let ghost def = self.tables().enums[id as int];
        assert(def == self.enums@[id as int]@);
        match &mut arm.pattern {
            Pattern::Wildcard => {
                if *wild {
                    return Err(
                        error(
                            Span::line_only(line),
                            String::from_str("duplicate `_` arm in match"),
                        ),
                    );
                }
                *wild = true;
                self.check_block(&mut arm.body)
            },
            Pattern::Variant { name, bindings, types } => {
                let v = match self.enums[id as usize].variant(name.as_str()) {
                    Some(v) => v,
                    None => {
                        return Err(
                            error(
                                Span::line_only(line),
                                cat5(
                                    "`",
                                    self.enums[id as usize].name.as_str(),
                                    "` has no variant `",
                                    name.as_str(),
                                    "`",
                                ),
                            ),
                        );
                    },
                };
                if covered[v] {
                    return Err(
                        error(
                            Span::line_only(line),
                            cat3("duplicate match arm for variant `", name.as_str(), "`"),
                        ),
                    );
                }
                covered.set(v, true);
                let fields = copied_types(&self.enums[id as usize].variants[v].fields);
                assert(fields@ == def.variants[v as int].fields);
                assert(all_known(self.ns(), self.ne(), fields@)) by {
                    assert(enum_known(self.ns(), self.ne(), def));
                    assert(all_known(self.ns(), self.ne(), def.variants[v as int].fields));
                }
                if bindings.len() != fields.len() {
                    return Err(
                        error(
                            Span::line_only(line),
                            cat7(
                                "variant `",
                                name.as_str(),
                                "` binds ",
                                dec_usize(bindings.len()).as_str(),
                                " value(s) but carries ",
                                dec_usize(fields.len()).as_str(),
                                " field(s)",
                            ),
                        ),
                    );
                }
                self.open_scope();
                let twice = self.bind_fields(bindings, &fields);
                *types = fields;
                if let Some(b) = twice {
                    self.close_scope();
                    return Err(
                        error(
                            Span::line_only(line),
                            cat3(
                                "duplicate binding `",
                                bindings[b].as_str(),
                                "` in pattern",
                            ),
                        ),
                    );
                }
                let r = self.check_block(&mut arm.body);
                self.close_scope();
                r
            },
        }
    }

    /// Declares the payload of a variant under its names; the position of the
    /// first name that was there already.
    fn bind_fields(&mut self, names: &Vec<String>, types: &Vec<Type>) -> (twice: Option<usize>)
        requires
            old(self).wf(),
            names@.len() == types@.len(),
            all_known(old(self).ns(), old(self).ne(), types@),
        ensures
            final(self).moved(*old(self), true),
            final(self)@.env.in_loop == old(self)@.env.in_loop,
            match twice {
                Some(i) => i < names@.len() && bind_all(
                    old(self).scopes(),
                    names_v(names@),
                    types@,
                    0,
                ) == (final(self).scopes(), Some(names@[i as int]@)),
                None => bind_all(old(self).scopes(), names_v(names@), types@, 0) == (
                    final(self).scopes(),
                    None::<Seq<char>>,
                ),
            },
    {
        let mut i: usize = 0;
        while i < names.len()
            invariant
                i <= names@.len() == types@.len(),
                all_known(self.ns(), self.ne(), types@),
                self.moved(*old(self), true),
                self@.env.in_loop == old(self)@.env.in_loop,
                bind_all(old(self).scopes(), names_v(names@), types@, 0) == bind_all(
                    self.scopes(),
                    names_v(names@),
                    types@,
                    i as int,
                ),
            decreases names@.len() - i,
        {
            if !self.declare(names[i].as_str(), types[i]) {
                return Some(i);
            }
            i = i + 1;
        }
        None
    }

    // ----- programs -------------------------------------------------------------------
    pub fn new() -> (a: Self)
        ensures
            a@ == fresh_state(),
            a.tables() == fresh_state().tables,
    {
        proof {
            reveal(Analyzer::view);
        }
        let a = Analyzer {
            functions: StringHashMap::new(),
            methods: Vec::new(),
            structs: Vec::new(),
            struct_ids: StringHashMap::new(),
            enums: Vec::new(),
            enum_ids: StringHashMap::new(),
            variants: StringHashMap::new(),
            symbols: SymbolTable::new(),
            current_ret: Type::Unit,
            in_loop: false,
        };
        assert(a.tables() =~= fresh_state().tables) by {
            assert(sigs_v(a.functions@) =~= Map::empty());
            assert(methods_v(a.methods@) =~= Seq::empty());
            assert(structs_v(a.structs@) =~= Seq::empty());
            assert(enums_v(a.enums@) =~= Seq::empty());
        }
        a
    }

    fn check_function(&mut self, f: &mut Function) -> (r: Result<(), SemaError>)
        requires
            tables_known(old(self).tables()),
            function_known(old(self).ns(), old(self).ne(), old(f)@),
        ensures
            tables_known(final(self).tables()),
            final(self).tables() == old(self).tables(),
            (final(f)@, final(self)@, unit_result(r)) == checked_function(old(self)@, old(f)@),
    {
        proof {
            reveal(Analyzer::view);
        }
        self.current_ret = f.ret;
        self.symbols = SymbolTable::new();
        proof {
            reveal(scopes_known);
        }
        if let Some(recv) = &f.recv {
            self.declare(recv.name.as_str(), recv.ty);
        }
        let ghost start = self.scopes();
        assert(start == receiver_scope(old(f)@));
        let mut i: usize = 0;
        while i < f.params.len()
            invariant
                i <= f.params@.len(),
                *f == *old(f),
                self.wf(),
                self@ == (State { env: self@.env, ret: f.ret, ..old(self)@ }),
                self@.env.in_loop == old(self)@.env.in_loop,
                params_known(self.ns(), self.ne(), f@.params),
                start == receiver_scope(f@),
                bind_params(start, f@.params, 0) == bind_params(
                    self.scopes(),
                    f@.params,
                    i as int,
                ),
            decreases f.params@.len() - i,
        {
            let ghost p = f@.params[i as int];
            assert(p == f.params@[i as int]@);
            if !self.declare(f.params[i].name.as_str(), f.params[i].ty) {
                return Err(
                    error(
                        Span::line_only(f.line),
                        cat5(
                            "duplicate parameter `",
                            f.params[i].name.as_str(),
                            "` in `",
                            f.name.as_str(),
                            "`",
                        ),
                    ),
                );
            }
            i = i + 1;
        }
        self.check_block(&mut f.body)
    }

    /// Enters the structs of a program.
    fn enter_structs(&mut self, structs: &Vec<StructDef>) -> (r: Result<(), SemaError>)
        ensures
            final(self).entered(*old(self)),
            (final(self).tables(), unit_result(r)) == enter_structs(
                old(self).tables(),
                structs_v(structs@),
                0,
            ),
    {
        proof {
            reveal(Analyzer::view);
        }
        let ghost ss = structs_v(structs@);
        let mut i: usize = 0;
        while i < structs.len()
            invariant
                i <= structs@.len(),
                ss == structs_v(structs@),
                self.entered(*old(self)),
                enter_structs(old(self).tables(), ss, 0) == enter_structs(
                    self.tables(),
                    ss,
                    i as int,
                ),
            decreases structs@.len() - i,
        {
            proof {
                reveal(Analyzer::view);
            }
            let def = &structs[i];
            assert(ss[i as int] == def@);
            self.struct_ids.insert(def.name.clone(), i as u32);
            if is_builtin(def.name.as_str()) {
                return Err(
                    error(
                        Span::line_only(def.line),
                        cat3("struct `", def.name.as_str(), "` collides with a builtin"),
                    ),
                );
            }
            i = i + 1;
        }
        Ok(())
    }

    /// Enters the enums of a program, without their variants.
    fn enter_enums(&mut self, enums: &Vec<EnumDef>) -> (r: Result<(), SemaError>)
        ensures
            final(self).entered(*old(self)),
            (final(self).tables(), unit_result(r)) == enter_enums(
                old(self).tables(),
                enums_v(enums@),
                0,
            ),
    {
        proof {
            reveal(Analyzer::view);
        }
        let ghost es = enums_v(enums@);
        let mut i: usize = 0;
        while i < enums.len()
            invariant
                i <= enums@.len(),
                es == enums_v(enums@),
                self.entered(*old(self)),
                enter_enums(old(self).tables(), es, 0) == enter_enums(
                    self.tables(),
                    es,
                    i as int,
                ),
            decreases enums@.len() - i,
        {
            proof {
                reveal(Analyzer::view);
            }
            let def = &enums[i];
            assert(es[i as int] == def@);
            if is_builtin(def.name.as_str()) {
                return Err(
                    error(
                        Span::line_only(def.line),
                        cat3("enum `", def.name.as_str(), "` collides with a builtin"),
                    ),
                );
            }
            if self.struct_ids.contains_key(def.name.as_str()) {
                return Err(
                    error(
                        Span::line_only(def.line),
                        cat3(
                            "`",
                            def.name.as_str(),
                            "` is declared as both a struct and an enum",
                        ),
                    ),
                );
            }
            self.enum_ids.insert(def.name.clone(), i as u32);
            i = i + 1;
        }
        Ok(())
    }

    /// Enters the variants of one enum. Variant names are global and unique;
    /// they must not collide with a builtin, struct constructor, or another
    /// variant.
    fn enter_variants(&mut self, def: &EnumDef, i: usize) -> (r: Result<(), SemaError>)
        ensures
            final(self).entered(*old(self)),
            (final(self).tables(), unit_result(r)) == enter_variants(
                old(self).tables(),
                def@,
                i as int,
                0,
            ),
    {
        proof {
            reveal(Analyzer::view);
        }
        let mut j: usize = 0;
        while j < def.variants.len()
            invariant
                j <= def.variants@.len(),
                self.entered(*old(self)),
                enter_variants(old(self).tables(), def@, i as int, 0) == enter_variants(
                    self.tables(),
                    def@,
                    i as int,
                    j as int,
                ),
            decreases def.variants@.len() - j,
        {
            proof {
                reveal(Analyzer::view);
            }
            let name = &def.variants[j].name;
            assert(def@.variants[j as int].name == name@);
            if is_builtin(name.as_str()) || self.struct_ids.contains_key(name.as_str()) {
                return Err(
                    error(
                        Span::line_only(def.line),
                        cat3(
                            "variant `",
                            name.as_str(),
                            "` collides with a builtin or struct of the same name",
                        ),
                    ),
                );
            }
            let twice = self.variants.contains_key(name.as_str());
            self.variants.insert(name.clone(), (i as u32, j as u32));
            if twice {
                return Err(
                    error(
                        Span::line_only(def.line),
                        cat3(
                            "variant `",
                            name.as_str(),
                            "` is defined in more than one enum (names are global)",
                        ),
                    ),
                );
            }
            j = j + 1;
        }
        Ok(())
    }

    /// Enters the variants of all enums.
    fn enter_all_variants(&mut self, enums: &Vec<EnumDef>) -> (r: Result<(), SemaError>)
        ensures
            final(self).entered(*old(self)),
            (final(self).tables(), unit_result(r)) == enter_all_variants(
                old(self).tables(),
                enums_v(enums@),
                0,
            ),
    {
        let ghost es = enums_v(enums@);
        let mut i: usize = 0;
        while i < enums.len()
            invariant
                i <= enums@.len(),
                es == enums_v(enums@),
                self.entered(*old(self)),
                enter_all_variants(old(self).tables(), es, 0) == enter_all_variants(
                    self.tables(),
                    es,
                    i as int,
                ),
            decreases enums@.len() - i,
        {
            assert(es[i as int] == enums@[i as int]@);
            match self.enter_variants(&enums[i], i) {
                Ok(_) => {},
                Err(e) => {
                    return Err(e);
                },
            }
            i = i + 1;
        }
        Ok(())
    }

    /// Enters the foreign functions of a program.
    fn enter_externs(&mut self, externs: &Vec<ExternFn>) -> (r: Result<(), SemaError>)
        ensures
            final(self).entered(*old(self)),
            (final(self).tables(), unit_result(r)) == enter_externs(
                old(self).tables(),
                externs_v(externs@),
                0,
            ),
    {
        proof {
            reveal(Analyzer::view);
        }
        let ghost xs = externs_v(externs@);
        let mut i: usize = 0;
        while i < externs.len()
            invariant
                i <= externs@.len(),
                xs == externs_v(externs@),
                self.entered(*old(self)),
                enter_externs(old(self).tables(), xs, 0) == enter_externs(
                    self.tables(),
                    xs,
                    i as int,
                ),
            decreases externs@.len() - i,
        {
            proof {
                reveal(Analyzer::view);
            }
            let x = &externs[i];
            assert(xs[i as int] == x@);
            let sig = FnSig { params: copied_types(&x.params), varargs: x.varargs, ret: x.ret };
            if self.enter_sig(x.name.as_str(), sig) {
                return Err(
                    error(
                        Span::line_only(x.line),
                        cat3("duplicate declaration of `", x.name.as_str(), "`"),
                    ),
                );
            }
            i = i + 1;
        }
        Ok(())
    }

    /// Enters a signature; `true` where the name had one already.
    fn enter_sig(&mut self, name: &str, sig: FnSig) -> (twice: bool)
        ensures
            final(self).entered(*old(self)),
            twice == old(self).tables().functions.contains_key(name@),
            final(self).tables() == (Tables {
                functions: old(self).tables().functions.insert(name@, sig@),
                ..old(self).tables()
            }),
    {
        proof {
            reveal(Analyzer::view);
        }
        let twice = self.functions.contains_key(name);
        let ghost before = sigs_v(self.functions@);
        let ghost added = sig@;
        self.functions.insert(String::from_str(name), sig);
        assert(sigs_v(self.functions@) =~= before.insert(name@, added));
        twice
    }

    /// Enters the signature of a method; `true` where the struct had one of
    /// that name already.
    fn enter_method(&mut self, id: u32, name: &str, sig: FnSig) -> (twice: bool)
        requires
            id < old(self).tables().methods.len(),
        ensures
            final(self).entered(*old(self)),
            twice == old(self).tables().methods[id as int].contains_key(name@),
            final(self).tables() == (Tables {
                methods: old(self).tables().methods.update(
                    id as int,
                    old(self).tables().methods[id as int].insert(name@, sig@),
                ),
                ..old(self).tables()
            }),
    {
        proof {
            reveal(Analyzer::view);
        }
        let ghost before = methods_v(self.methods@);
        let ghost own = sigs_v(self.methods@[id as int]@);
        let ghost added = sig@;
        assert(before[id as int] == own);
        let twice = self.methods[id as usize].contains_key(name);
        self.methods[id as usize].insert(String::from_str(name), sig);
        assert(sigs_v(self.methods@[id as int]@) =~= own.insert(name@, added));
        assert(methods_v(self.methods@) =~= before.update(id as int, own.insert(name@, added)));
        twice
    }

    /// Enters a function or method.
    fn enter_function(&mut self, f: &Function) -> (r: Result<(), SemaError>)
        requires
            function_known(old(self).ns(), old(self).ne(), f@),
            old(self).tables().methods.len() >= old(self).ns(),
        ensures
            final(self).entered(*old(self)),
            (final(self).tables(), unit_result(r)) == enter_function(old(self).tables(), f@),
    {
        proof {
            reveal(Analyzer::view);
        }
        let sig = FnSig { params: types_of(&f.params), varargs: false, ret: f.ret };
        if let Some(recv) = &f.recv {
            // A method: by receiver struct and method name, separate from the
            // free-function namespace.
            let id = match recv.ty {
                Type::Struct(id) => id,
                _ => {
                    return Err(
                        error(
                            Span::line_only(f.line),
                            cat4(
                                "method receiver `",
                                recv.name.as_str(),
                                "` must be a struct, found ",
                                self.name_of_type(recv.ty).as_str(),
                            ),
                        ),
                    );
                },
            };
            if self.enter_method(id, f.name.as_str(), sig) {
                let owner = &self.structs[id as usize];
                assert(self.tables().structs[id as int] == owner@);
                return Err(
                    error(
                        Span::line_only(f.line),
                        cat5(
                            "duplicate method `",
                            f.name.as_str(),
                            "` on `",
                            owner.name.as_str(),
                            "`",
                        ),
                    ),
                );
            }
            return Ok(());
        }
        if self.enter_sig(f.name.as_str(), sig) {
            return Err(
                error(
                    Span::line_only(f.line),
                    cat3("duplicate definition of `", f.name.as_str(), "`"),
                ),
            );
        }
        if self.struct_ids.contains_key(f.name.as_str()) {
            return Err(
                error(
                    Span::line_only(f.line),
                    cat3("`", f.name.as_str(), "` is defined as both a struct and a function"),
                ),
            );
        }
        if self.enum_ids.contains_key(f.name.as_str()) || self.variants.contains_key(
            f.name.as_str(),
        ) {
            return Err(
                error(
                    Span::line_only(f.line),
                    cat3(
                        "`",
                        f.name.as_str(),
                        "` collides with an enum or variant of the same name",
                    ),
                ),
            );
        }
        Ok(())
    }

    /// Only the tables changed, and not their structs and enums.
    pub open spec fn entered(&self, before: Analyzer) -> bool {
        &&& self@ == (State { tables: self.tables(), ..before@ })
        &&& self.tables().structs == before.tables().structs
        &&& self.tables().enums == before.tables().enums
        &&& self.tables().methods.len() == before.tables().methods.len()
    }

    /// Enters the functions of a program.
    fn enter_functions(&mut self, functions: &Vec<Function>) -> (r: Result<(), SemaError>)
        requires
            forall|i: int|
                0 <= i < functions@.len() ==> function_known(
                    old(self).ns(),
                    old(self).ne(),
                    #[trigger] functions_v(functions@)[i],
                ),
            old(self).tables().methods.len() >= old(self).ns(),
        ensures
            final(self).entered(*old(self)),
            (final(self).tables(), unit_result(r)) == enter_functions(
                old(self).tables(),
                functions_v(functions@),
                0,
            ),
    {
        let ghost fs = functions_v(functions@);
        let mut i: usize = 0;
        while i < functions.len()
            invariant
                i <= functions@.len(),
                fs == functions_v(functions@),
                self.entered(*old(self)),
                forall|i: int|
                    0 <= i < functions@.len() ==> function_known(
                        self.ns(),
                        self.ne(),
                        #[trigger] fs[i],
                    ),
                self.tables().methods.len() >= self.ns(),
                enter_functions(old(self).tables(), fs, 0) == enter_functions(
                    self.tables(),
                    fs,
                    i as int,
                ),
            decreases functions@.len() - i,
        {
            assert(fs[i as int] == functions@[i as int]@);
            match self.enter_function(&functions[i]) {
                Ok(_) => {},
                Err(e) => {
                    return Err(e);
                },
            }
            i = i + 1;
        }
        Ok(())
    }

    /// Enters every declaration of a program, so that call order does not
    /// matter.
    fn enter_all(&mut self, program: &Program) -> (r: Result<(), SemaError>)
        requires
            program_known(program@),
            names_known(old(self).tables(), program@.structs, program@.enums),
        ensures
            final(self)@ == (State { tables: final(self).tables(), ..old(self)@ }),
            (final(self).tables(), unit_result(r)) == enter_all(old(self).tables(), program@),
    {
        proof {
            reveal(Analyzer::view);
        }
        self.structs = copied_structs(&program.structs);
        while self.methods.len() < program.structs.len()
            invariant
                self.structs@.len() == program.structs@.len(),
                structs_v(self.structs@) == program@.structs,
                self@ == (State { tables: self.tables(), ..old(self)@ }),
                self.tables() == (Tables {
                    structs: program@.structs,
                    methods: self.tables().methods,
                    ..old(self).tables()
                }),
                old(self).tables().methods.len() <= self.methods@.len(),
                self.methods@.len() <= program.structs@.len() || self.methods@.len()
                    == old(self).tables().methods.len(),
                forall|i: int|
                    0 <= i < self.methods@.len() ==> #[trigger] self.tables().methods[i] == (if i
                        < old(self).tables().methods.len() {
                        old(self).tables().methods[i]
                    } else {
                        Map::empty()
                    }),
            decreases program.structs@.len() - self.methods@.len(),
        {
            proof {
                reveal(Analyzer::view);
            }
            let ghost before = methods_v(self.methods@);
            self.methods.push(StringHashMap::new());
            assert(sigs_v(Map::<Seq<char>, FnSig>::empty()) =~= Map::empty());
            assert(methods_v(self.methods@) =~= before.push(Map::empty()));
        }
        assert(self.tables().methods =~= padded(
            old(self).tables().methods,
            program@.structs.len(),
        ));
        match self.enter_structs(&program.structs) {
            Ok(_) => {},
            Err(e) => {
                return Err(e);
            },
        }
        self.enums = copied_enums(&program.enums);
        match self.enter_enums(&program.enums) {
            Ok(_) => {},
            Err(e) => {
                return Err(e);
            },
        }
        match self.enter_all_variants(&program.enums) {
            Ok(_) => {},
            Err(e) => {
                return Err(e);
            },
        }
        match self.enter_externs(&program.externs) {
            Ok(_) => {},
            Err(e) => {
                return Err(e);
            },
        }
        assert(self.tables().structs == program@.structs);
        assert(self.tables().enums == program@.enums);
        assert(functions_v(program.functions@) == program@.functions);
        self.enter_functions(&program.functions)
    }

    /// Type-check the whole program, annotating expression types in place. What
    /// was accepted can be analyzed again.
    pub fn analyze(&mut self, program: &mut Program) -> (r: Result<(), SemaError>)
        requires
            program_known(old(program)@),
            names_known(old(self).tables(), old(program)@.structs, old(program)@.enums),
        ensures
            (final(program)@, final(self)@, unit_result(r)) == analyzed(old(self)@, old(program)@),
            r is Ok ==> program_known(final(program)@),
    {
        match self.enter_all(program) {
            Ok(_) => {},
            Err(e) => {
                return Err(e);
            },
        }
        proof {
            lemma_enter_all_known(old(self).tables(), program@);
            if analyzed(old(self)@, program@).2 is Ok {
                law_analysis_keeps_declarations(old(self)@, program@);
            }
        }
        let ghost given = program@.functions;
        let ghost st = self@;
        let ghost whole = checked_functions(st, given, 0);
        assert(analyzed(old(self)@, program@) == (
            ProgramV { functions: whole.0, ..program@ },
            whole.1,
            whole.2,
        ));
        let ghost result = analyzed(old(self)@, program@);
        let mut i: usize = 0;
        assert(whole.0 =~= functions_v(program.functions@).take(0) + whole.0);
        while i < program.functions.len()
            invariant
                tables_known(self.tables()),
                self.tables() == st.tables,
                i <= program.functions@.len() == given.len(),
                forall|j: int| 0 <= j < given.len()
                    ==> function_known(self.ns(), self.ne(), #[trigger] given[j]),
                forall|j: int|
                    i <= j < given.len() ==> #[trigger] program.functions@[j]@ == given[j],
                program@ == (ProgramV { functions: program@.functions, ..old(program)@ }),
                whole == checked_functions(st, given, 0),
                ({
                    let rest = checked_functions(self@, given, i as int);
                    &&& whole.0 == functions_v(program.functions@).take(i as int) + rest.0
                    &&& whole.1 == rest.1
                    &&& whole.2 == rest.2
                }),
                result == analyzed(old(self)@, old(program)@),
                result == (
                    ProgramV { functions: whole.0, ..old(program)@ },
                    whole.1,
                    whole.2,
                ),
                result.2 is Ok ==> program_known(result.0),
            decreases program.functions@.len() - i,
        {
            let ghost prefix = functions_v(program.functions@).take(i as int);
            assert(function_known(self.ns(), self.ne(), given[i as int]));
            let checked = self.check_function(&mut program.functions[i]);
            let ghost head = program.functions@[i as int]@;
            proof {
                assert(functions_v(program.functions@) =~= prefix + (seq![head] + given.skip(
                    i + 1,
                )));
                assert(functions_v(program.functions@).take(i + 1) =~= prefix + seq![head]);
                let rest = checked_functions(self@, given, i + 1).0;
                assert(prefix + (seq![head] + rest) =~= prefix + seq![head] + rest);
            }
            match checked {
                Ok(_) => {},
                Err(e) => {
                    return Err(e);
                },
            }
            i = i + 1;
        }
        assert(functions_v(program.functions@).take(i as int) + Seq::empty()
            =~= functions_v(program.functions@));
        Ok(())
    }
}

/// What is asked of a list of arguments, and by whom.
enum Wanted<'a> {
    Payload { name: &'a str, fields: &'a Vec<Type> },
    Find,
    Fields { def: &'a StructDef },
    Params { name: &'a str, sig: &'a FnSig, span: Span },
    Method { name: &'a str, sig: &'a FnSig },
    Elems { first: Type },
}

impl<'a> Wanted<'a> {
    spec fn view(&self) -> Want {
        match *self {
            Wanted::Payload { name, fields } => Want::Payload { name: name@, fields: fields@ },
            Wanted::Find => Want::Find,
            Wanted::Fields { def } => Want::Fields { def: def@ },
            Wanted::Params { name, sig, span } => Want::Params { name: name@, sig: sig@, span },
            Wanted::Method { name, sig } => Want::Method { name: name@, sig: sig@ },
            Wanted::Elems { first } => Want::Elems { first },
        }
    }

    /// Whether there is an answer for each of `n` arguments.
    spec fn fits(&self, n: nat) -> bool {
        match self@ {
            Want::Payload { name, fields } => fields.len() == n,
            Want::Fields { def } => def.fields.len() == n,
            Want::Method { name, sig } => sig.params.len() == n,
            _ => true,
        }
    }

    /// Whether the types asked for are known.
    spec fn known(&self, ns: nat, ne: nat) -> bool {
        match self@ {
            Want::Payload { name, fields } => crate::typing::all_known(ns, ne, fields),
            Want::Fields { def } => crate::typing::params_known(ns, ne, def.fields),
            Want::Params { name, sig, span } => sig_known(ns, ne, sig),
            Want::Method { name, sig } => sig_known(ns, ne, sig),
            Want::Elems { first } => known(ns, ne, first),
            Want::Find => true,
        }
    }
}

/// The outcome of typing as a value of mathematics.
pub open spec fn type_result(r: Result<Type, SemaError>) -> Result<Type, Fault> {
    match r {
        Ok(ty) => Ok(ty),
        Err(e) => Err(e@),
    }
}

/// The outcome of a check as a value of mathematics.
pub open spec fn unit_result(r: Result<(), SemaError>) -> Result<(), Fault> {
    match r {
        Ok(_) => Ok(()),
        Err(e) => Err(e@),
    }
}

/// A variable that is found has a known type.
pub(crate) proof fn lemma_lookup_known(ns: nat, ne: nat, scopes: Scopes, name: Seq<char>)
    requires
        scopes_known(ns, ne, scopes),
        scopes.len() > 0,
    ensures
        lookup(scopes, name) matches Some(ty) ==> known(ns, ne, ty),
    decreases scopes.len(),
{
    reveal(scopes_known);
    let last = scopes.len() - 1;
    if scopes[last].contains_key(name) {
        assert(known(ns, ne, scopes[last][name]));
    } else if last > 0 {
        let less = scopes.drop_last();
        assert forall|i: int, k: Seq<char>|
            0 <= i < less.len() && less[i].contains_key(k) implies known(
            ns,
            ne,
            #[trigger] less[i][k],
        ) by {
            assert(known(ns, ne, scopes[i][k]));
        }
        lemma_lookup_known(ns, ne, less, name);
    } else {
        assert(lookup(scopes.drop_last(), name) is None);
    }
}

/// The variant that a name leads to, and its payload.
proof fn lemma_variants(a: &Analyzer, eid: u32, vid: u32)
    requires
        a.wf(),
        exists|k: Seq<char>|
            a.tables().variants.contains_key(k) && a.tables().variants[k] == (eid, vid),
    ensures
        eid < a.enums@.len(),
        vid < a.enums@[eid as int].variants@.len(),
        a.tables().enums[eid as int].variants[vid as int].fields
            == a.enums@[eid as int].variants@[vid as int].fields@,
        crate::typing::all_known(
            a.ns(),
            a.ne(),
            a.enums@[eid as int].variants@[vid as int].fields@,
        ),
        known(a.ns(), a.ne(), Type::Enum(eid)),
{
    reveal(Analyzer::view);
    reveal(tables_known);
    let t = a.tables();
    assert(t.enums[eid as int] == a.enums@[eid as int]@);
    assert(crate::typing::enum_known(a.ns(), a.ne(), t.enums[eid as int]));
    let v = t.enums[eid as int].variants[vid as int];
    assert(v == a.enums@[eid as int].variants@[vid as int]@);
}

/// Whether a type has no printable form.
fn is_opaque(ty: Type) -> (b: bool)
    ensures
        b == opaque(ty),
{
    match ty {
        Type::Unit | Type::Array(_, _) | Type::Struct(_) | Type::Enum(_) => true,
        _ => false,
    }
}

/// Whether a name is a function that the compiler knows.
fn is_builtin(name: &str) -> (b: bool)
    ensures
        b == builtin(name@),
{
    same(name, "print") || same(name, "str") || same(name, "len") || same(name, "push") || same(
        name,
        "pop",
    ) || same(name, "find")
}

/// How many arguments a builtin takes.
fn arity(name: &str) -> (n: usize)
    ensures
        n == builtin_arity(name@),
{
    if same(name, "push") || same(name, "find") {
        2
    } else {
        1
    }
}

/// What a builtin says of a wrong number of arguments.
fn count_message(name: &str, n: usize) -> (s: String)
    ensures
        s@ == builtin_count(name@, n as nat),
{
    if arity(name) == 2 {
        cat3(name, " takes exactly 2 arguments, got ", dec_usize(n).as_str())
    } else {
        cat3(name, " takes exactly 1 argument, got ", dec_usize(n).as_str())
    }
}

/// The type of a unary operation.
fn check_unary(op: UnOp, ty: Type, span: Span) -> (r: Result<Type, SemaError>)
    ensures
        type_result(r) == (match unary_type(op, ty) {
            Ok(ty) => Ok(ty),
            Err(m) => Err(crate::typing::fault(span, m)),
        }),
        r matches Ok(t) ==> t == ty || t == Type::Bool,
{
    match op {
        UnOp::Neg => if ty == Type::Int || ty == Type::Float {
            Ok(ty)
        } else {
            Err(error(span, cat2("cannot negate a value of type ", ty.to_text().as_str())))
        },
        UnOp::Not => if ty == Type::Bool {
            Ok(Type::Bool)
        } else {
            Err(error(span, cat2("`not` requires bool, found ", ty.to_text().as_str())))
        },
    }
}

/// A scope that is opened keeps all types known.
pub(crate) proof fn lemma_push_known(ns: nat, ne: nat, scopes: Scopes)
    requires
        scopes_known(ns, ne, scopes),
    ensures
        scopes_known(ns, ne, pushed(scopes)),
        pushed(scopes).drop_last() == scopes,
{
    reveal(scopes_known);
    let more = pushed(scopes);
    assert(more.drop_last() =~= scopes);
    assert forall|i: int, k: Seq<char>| 0 <= i < more.len()
        && more[i].contains_key(k) implies known(
        ns,
        ne,
        #[trigger] more[i][k],
    ) by {
        assert(i < scopes.len());
        assert(known(ns, ne, scopes[i][k]));
    }
}

/// So does one that is closed.
proof fn lemma_pop_known(ns: nat, ne: nat, scopes: Scopes)
    requires
        scopes_known(ns, ne, scopes),
        scopes.len() > 0,
    ensures
        scopes_known(ns, ne, scopes.drop_last()),
{
    reveal(scopes_known);
    let less = scopes.drop_last();
    assert forall|i: int, k: Seq<char>| 0 <= i < less.len()
        && less[i].contains_key(k) implies known(
        ns,
        ne,
        #[trigger] less[i][k],
    ) by {
        assert(known(ns, ne, scopes[i][k]));
    }
}

/// So does a declaration of a known type.
pub(crate) proof fn lemma_declare_known(ns: nat, ne: nat, scopes: Scopes, name: Seq<char>, ty: Type)
    requires
        scopes_known(ns, ne, scopes),
        scopes.len() > 0,
        known(ns, ne, ty),
    ensures
        scopes_known(ns, ne, declare(scopes, name, ty)),
{
    reveal(scopes_known);
    let more = declare(scopes, name, ty);
    assert forall|i: int, k: Seq<char>| 0 <= i < more.len()
        && more[i].contains_key(k) implies known(
        ns,
        ne,
        #[trigger] more[i][k],
    ) by {
        if i == scopes.len() - 1 && k == name {
        } else {
            assert(scopes[i].contains_key(k));
            assert(known(ns, ne, scopes[i][k]));
        }
    }
}

/// A copy of some types.
fn copied_types(types: &Vec<Type>) -> (out: Vec<Type>)
    ensures
        out@ == types@,
{
    let mut out: Vec<Type> = Vec::new();
    let mut i: usize = 0;
    while i < types.len()
        invariant
            i <= types@.len(),
            out@ =~= types@.take(i as int),
        decreases types@.len() - i,
    {
        out.push(types[i]);
        i = i + 1;
    }
    out
}

/// Whether every variant is covered.
fn every(covered: &Vec<bool>) -> (b: bool)
    ensures
        b == all_covered(covered@),
{
    let mut i: usize = 0;
    while i < covered.len()
        invariant
            i <= covered@.len(),
            forall|k: int| 0 <= k < i ==> #[trigger] covered@[k],
        decreases covered@.len() - i,
    {
        if !covered[i] {
            return false;
        }
        i = i + 1;
    }
    true
}

/// The names of the variants that no arm covers, with commas between them.
fn missing_names(def: &EnumDef, covered: &Vec<bool>) -> (s: String)
    requires
        covered@.len() == def.variants@.len(),
    ensures
        s@ == missing(def@, covered@, 0, false),
{
    let mut out = String::new();
    let mut found = false;
    let mut i: usize = 0;
    assert(out@ + missing(def@, covered@, 0, false) =~= missing(def@, covered@, 0, false));
    while i < def.variants.len()
        invariant
            i <= def.variants@.len() == covered@.len(),
            out@ + missing(def@, covered@, i as int, found) == missing(def@, covered@, 0, false),
        decreases def.variants@.len() - i,
    {
        if !covered[i] {
            let ghost before = out@;
            let name = &def.variants[i].name;
            assert(def@.variants[i as int].name == name@);
            let ghost rest = missing(def@, covered@, i + 1, true);
            if found {
                out.append(", ");
                out.append(name.as_str());
                assert(before + (", "@ + name@ + rest) =~= out@ + rest);
            } else {
                out.append(name.as_str());
                assert(before + (name@ + rest) =~= out@ + rest);
            }
            found = true;
        }
        i = i + 1;
    }
    assert(out@ + Seq::empty() =~= out@);
    out
}

/// The types of some parameters.
fn types_of(params: &Vec<Param>) -> (out: Vec<Type>)
    ensures
        out@ == param_types(params_v(params@)),
{
    let mut out: Vec<Type> = Vec::new();
    let mut i: usize = 0;
    while i < params.len()
        invariant
            i <= params@.len(),
            out@ =~= param_types(params_v(params@)).take(i as int),
        decreases params@.len() - i,
    {
        out.push(params[i].ty);
        i = i + 1;
    }
    out
}

/// A copy of some structs.
pub(crate) fn copied_structs(structs: &Vec<StructDef>) -> (out: Vec<StructDef>)
    ensures
        structs_v(out@) == structs_v(structs@),
        out@.len() == structs@.len(),
{
    let mut out: Vec<StructDef> = Vec::new();
    let mut i: usize = 0;
    while i < structs.len()
        invariant
            i <= structs@.len(),
            structs_v(out@) =~= structs_v(structs@).take(i as int),
        decreases structs@.len() - i,
    {
        let def = &structs[i];
        let mut fields: Vec<Param> = Vec::new();
        let mut j: usize = 0;
        while j < def.fields.len()
            invariant
                j <= def.fields@.len(),
                params_v(fields@) =~= params_v(def.fields@).take(j as int),
            decreases def.fields@.len() - j,
        {
            let ghost before = params_v(fields@);
            let field = Param { name: def.fields[j].name.clone(), ty: def.fields[j].ty };
            let ghost last = field@;
            fields.push(field);
            assert(params_v(fields@) =~= before.push(last));
            j = j + 1;
        }
        let ghost before = structs_v(out@);
        let copy = StructDef { name: def.name.clone(), fields, line: def.line };
        assert(copy@ == def@);
        let ghost last = copy@;
        out.push(copy);
        assert(structs_v(out@) =~= before.push(last));
        i = i + 1;
    }
    assert(structs_v(out@).len() == out@.len());
    out
}

/// A copy of some enums.
pub(crate) fn copied_enums(enums: &Vec<EnumDef>) -> (out: Vec<EnumDef>)
    ensures
        enums_v(out@) == enums_v(enums@),
{
    let mut out: Vec<EnumDef> = Vec::new();
    let mut i: usize = 0;
    while i < enums.len()
        invariant
            i <= enums@.len(),
            enums_v(out@) =~= enums_v(enums@).take(i as int),
        decreases enums@.len() - i,
    {
        let def = &enums[i];
        let mut variants: Vec<VariantDef> = Vec::new();
        let mut j: usize = 0;
        while j < def.variants.len()
            invariant
                j <= def.variants@.len(),
                variants_v(variants@) =~= variants_v(def.variants@).take(j as int),
            decreases def.variants@.len() - j,
        {
            let ghost before = variants_v(variants@);
            let variant = VariantDef {
                name: def.variants[j].name.clone(),
                fields: copied_types(&def.variants[j].fields),
            };
            let ghost last = variant@;
            variants.push(variant);
            assert(variants_v(variants@) =~= before.push(last));
            j = j + 1;
        }
        let ghost before = enums_v(out@);
        let copy = EnumDef { name: def.name.clone(), variants, line: def.line };
        assert(copy@ == def@);
        let ghost last = copy@;
        out.push(copy);
        assert(enums_v(out@) =~= before.push(last));
        i = i + 1;
    }
    out
}

// ----- entering declarations keeps all ids meaningful -------------------------------------
proof fn lemma_enter_structs(t: Tables, structs: Seq<StructV>, enums: Seq<EnumV>, i: int)
    requires
        names_known(t, structs, enums),
        0 <= i,
    ensures
        ({
            let t1 = enter_structs(t, structs, i).0;
            &&& names_known(t1, structs, enums)
            &&& t1 == (Tables { struct_ids: t1.struct_ids, ..t })
        }),
    decreases structs.len() - i,
{
    if i < structs.len() {
        let t1 = Tables { struct_ids: t.struct_ids.insert(structs[i].name, i as u32), ..t };
        assert(names_known(t1, structs, enums));
        lemma_enter_structs(t1, structs, enums, i + 1);
    }
}

proof fn lemma_enter_enums(t: Tables, structs: Seq<StructV>, enums: Seq<EnumV>, i: int)
    requires
        names_known(t, structs, enums),
        0 <= i,
    ensures
        ({
            let t1 = enter_enums(t, enums, i).0;
            &&& names_known(t1, structs, enums)
            &&& t1 == (Tables { enum_ids: t1.enum_ids, ..t })
        }),
    decreases enums.len() - i,
{
    if i < enums.len() {
        let t1 = Tables { enum_ids: t.enum_ids.insert(enums[i].name, i as u32), ..t };
        assert(names_known(t1, structs, enums));
        lemma_enter_enums(t1, structs, enums, i + 1);
    }
}

proof fn lemma_enter_variants(
    t: Tables,
    structs: Seq<StructV>,
    enums: Seq<EnumV>,
    i: int,
    j: int,
)
    requires
        names_known(t, structs, enums),
        0 <= i < enums.len() <= u32::MAX,
        0 <= j,
    ensures
        ({
            let t1 = enter_variants(t, enums[i], i, j).0;
            &&& names_known(t1, structs, enums)
            &&& t1 == (Tables { variants: t1.variants, ..t })
        }),
    decreases enums[i].variants.len() - j,
{
    let e = enums[i];
    if j < e.variants.len() {
        let name = e.variants[j].name;
        let t1 = Tables { variants: t.variants.insert(name, (i as u32, j as u32)), ..t };
        assert(names_known(t1, structs, enums));
        lemma_enter_variants(t1, structs, enums, i, j + 1);
    }
}

proof fn lemma_enter_all_variants(t: Tables, structs: Seq<StructV>, enums: Seq<EnumV>, i: int)
    requires
        names_known(t, structs, enums),
        enums.len() <= u32::MAX,
        0 <= i,
    ensures
        ({
            let t1 = enter_all_variants(t, enums, i).0;
            &&& names_known(t1, structs, enums)
            &&& t1 == (Tables { variants: t1.variants, ..t })
        }),
    decreases enums.len() - i,
{
    if i < enums.len() {
        lemma_enter_variants(t, structs, enums, i, 0);
        lemma_enter_all_variants(enter_variants(t, enums[i], i, 0).0, structs, enums, i + 1);
    }
}

proof fn lemma_enter_externs(t: Tables, p: ProgramV, i: int)
    requires
        names_known(t, p.structs, p.enums),
        program_known(p),
        0 <= i,
    ensures
        ({
            let t1 = enter_externs(t, p.externs, i).0;
            &&& names_known(t1, p.structs, p.enums)
            &&& t1 == (Tables { functions: t1.functions, ..t })
        }),
    decreases p.externs.len() - i,
{
    if i < p.externs.len() {
        let x = p.externs[i];
        let sig = SigV { params: x.params, varargs: x.varargs, ret: x.ret };
        let t1 = Tables { functions: t.functions.insert(x.name, sig), ..t };
        assert(sig_known(p.structs.len(), p.enums.len(), sig));
        assert(names_known(t1, p.structs, p.enums));
        lemma_enter_externs(t1, p, i + 1);
    }
}

proof fn lemma_enter_functions(t: Tables, p: ProgramV, i: int)
    requires
        names_known(t, p.structs, p.enums),
        program_known(p),
        t.methods.len() >= p.structs.len(),
        0 <= i,
    ensures
        ({
            let t1 = enter_functions(t, p.functions, i).0;
            &&& names_known(t1, p.structs, p.enums)
            &&& t1 == (Tables { functions: t1.functions, methods: t1.methods, ..t })
            &&& t1.methods.len() == t.methods.len()
        }),
    decreases p.functions.len() - i,
{
    if i < p.functions.len() {
        let f = p.functions[i];
        let ns = p.structs.len();
        let ne = p.enums.len();
        assert(function_known(ns, ne, f));
        let sig = SigV { params: param_types(f.params), varargs: false, ret: f.ret };
        assert(sig_known(ns, ne, sig)) by {
            assert forall|k: int| 0 <= k < sig.params.len() implies known(
                ns,
                ne,
                #[trigger] sig.params[k],
            ) by {
                assert(known(ns, ne, f.params[k].ty));
            }
        }
        let t1 = enter_function(t, f).0;
        assert(names_known(t1, p.structs, p.enums)) by {
            assert forall|m: int, k: Seq<char>|
                0 <= m < t1.methods.len() && t1.methods[m].contains_key(k) implies sig_known(
                ns,
                ne,
                #[trigger] t1.methods[m][k],
            ) by {
                if t1.methods[m][k] != sig {
                    assert(t.methods[m].contains_key(k));
                    assert(sig_known(ns, ne, t.methods[m][k]));
                }
            }
            assert forall|k: Seq<char>| t1.functions.contains_key(k) implies sig_known(
                ns,
                ne,
                #[trigger] t1.functions[k],
            ) by {
                if t1.functions[k] != sig {
                    assert(sig_known(ns, ne, t.functions[k]));
                }
            }
        }
        lemma_enter_functions(t1, p, i + 1);
    }
}

/// Once every declaration is entered, the tables are complete.
pub(crate) proof fn lemma_enter_all_known(t: Tables, p: ProgramV)
    requires
        program_known(p),
        names_known(t, p.structs, p.enums),
        enter_all(t, p).1 is Ok,
    ensures
        tables_known(enter_all(t, p).0),
        enter_all(t, p).0.structs == p.structs,
        enter_all(t, p).0.enums == p.enums,
{
    reveal(tables_known);
    let methods = padded(t.methods, p.structs.len());
    let t0 = Tables { structs: p.structs, methods, ..t };
    assert(names_known(t0, p.structs, p.enums)) by {
        assert forall|m: int, k: Seq<char>|
            0 <= m < methods.len() && methods[m].contains_key(k) implies sig_known(
            p.structs.len(),
            p.enums.len(),
            #[trigger] methods[m][k],
        ) by {
            assert(t.methods[m].contains_key(k));
            assert(sig_known(p.structs.len(), p.enums.len(), t.methods[m][k]));
        }
    }
    lemma_enter_structs(t0, p.structs, p.enums, 0);
    let t1 = Tables { enums: p.enums, ..enter_structs(t0, p.structs, 0).0 };
    assert(names_known(t1, p.structs, p.enums));
    lemma_enter_enums(t1, p.structs, p.enums, 0);
    let t2 = enter_enums(t1, p.enums, 0).0;
    lemma_enter_all_variants(t2, p.structs, p.enums, 0);
    let t3 = enter_all_variants(t2, p.enums, 0).0;
    lemma_enter_externs(t3, p, 0);
    let t4 = enter_externs(t3, p.externs, 0).0;
    lemma_enter_functions(t4, p, 0);
}

} // verus!
