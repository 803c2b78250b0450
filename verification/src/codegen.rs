//! Phase 4: lowering to LLVM IR.
//!
//! A visitor walks the (type-annotated, ARC-rewritten) AST and lowers it to
//! the instructions of [`crate::ir`]; what it makes of each construct is
//! stated in [`crate::lowering`].
//!
//! `extern fn` declarations become plain function declarations — the system
//! linker resolves them against libc (or anything else), with zero wrapper
//! overhead.
//!
//! The user's `main` is compiled as `xia_main`; a synthetic C `main`
//! truncates its result to i32 so the CRT entry point links cleanly.
use vstd::prelude::*;
use vstd::hash_map::StringHashMap;
use crate::ast::{
    arms_v, block_v, enums_v, exprs_v, kind_v, names_v, opt_expr_v, params_v, structs_v, BinOp,
    EnumDef, Expr, ExprKind, ExprV, Function, FunctionV, MatchArm, Param, ParamV, Pattern, Program,
    Stmt, StructDef, Type, UnOp,
};
use crate::counting::owns_iterable;
use crate::ir::{Callee, Conv, Ins, Label, Libc, Mark, Op, Pred, Rt, Ty, Val};
use crate::lowering::{
    all_params, any_heap, arm_test, at_entry, bad_count, begin, bind_params, bind_payload, bind_var,
    bool_text, branch_if_open, c_main, call, call_rt, callees_of, calls, code_calls, consume, cx_of,
    drop_enum, drop_fn, drop_struct, drop_variants, drop_words, emit, enum_drops, enum_names,
    enum_owns, extern_symbol, field_place, field_types, fill, find_hidden, find_var, float_op,
    flush, foreach_slots, foreach_take, foreach_test, from_word, function_key, function_name,
    function_symbol, int_op, is_call, keep_alive, label, literal, low_advance, low_arm, low_arms,
    low_array, low_assign, low_bare, low_binary, low_block, low_body, low_builtin, low_call,
    low_cond, low_count, low_elems, low_expr, low_exprs, low_field, low_field_assign, low_for,
    low_foreach, low_function, low_functions, low_hold, low_if, low_index, low_index_assign,
    low_jump, low_len, low_let, low_match, low_method, low_print, low_push, low_return,
    low_short_circuit, low_stmt, low_stmts, low_str, low_struct, low_symbol, low_unary, low_var,
    low_variant, low_while, lowered, method_place, no_value, param_tys, pass, pattern_place,
    pop_scope, printf, push_scope, reg, release, retain, str_op, struct_drops, struct_ids_of,
    struct_names, symbol_index, symbols_of, text_index, to_word, ty_of, tys_of, variant_fits,
    with_runtime, with_temp, with_var, without_last, Cx, FnV, Gen, ModuleV, Slots, SymbolV, Value,
};
use crate::naming::unprime;
use crate::runtime::{all_rt, code_of, name_of, params_of, ret_of, rt_order};
use crate::sema::{copied_enums, copied_structs};
use crate::text::{cat2, cat3, cat5, dec_usize, same};

verus! {

/// What a call can be made to: a function of the program or a foreign one.
pub struct Symbol {
    /// The name it has in the module.
    pub name: String,
    pub params: Vec<Ty>,
    pub varargs: bool,
    pub ret: Type,
    pub is_extern: bool,
}

impl Symbol {
    pub open spec fn view(&self) -> SymbolV {
        SymbolV {
            name: self.name@,
            params: self.params@,
            varargs: self.varargs,
            ret: self.ret,
            is_extern: self.is_extern,
        }
    }
}

pub open spec fn symbols_v(s: Seq<Symbol>) -> Seq<SymbolV> {
    Seq::new(s.len(), |i: int| s[i]@)
}

/// What does not change while a program is lowered.
pub struct Decls {
    pub symbols: Vec<Symbol>,
    /// The symbol that a name in the program stands for.
    pub callees: StringHashMap<usize>,
    pub structs: Vec<StructDef>,
    pub struct_ids: StringHashMap<u32>,
    pub enums: Vec<EnumDef>,
}

impl Decls {
    pub open spec fn view(&self) -> Cx {
        Cx {
            symbols: symbols_v(self.symbols@),
            callees: self.callees@,
            structs: structs_v(self.structs@),
            struct_ids: self.struct_ids@,
            enums: enums_v(self.enums@),
        }
    }

    /// The position and type of a field of a value of that type.
    fn field_place(&self, ty: Option<Type>, name: &str) -> (r: Option<(usize, Type)>)
        ensures
            match r {
                Some((i, t)) => field_place(self@, ty, name@) == Some((i as int, t)),
                None => field_place(self@, ty, name@) is None,
            },
    {
        match ty {
            Some(Type::Struct(id)) => {
                if (id as usize) < self.structs.len() {
                    assert(self@.structs[id as int] == self.structs@[id as int]@);
                    self.structs[id as usize].field(name)
                } else {
                    None
                }
            },
            _ => None,
        }
    }

    /// The symbol of a method of a value of that type.
    fn method_place(&self, ty: Option<Type>, name: &str) -> (r: Option<usize>)
        ensures
            r == method_place(self@, ty, name@),
    {
        match ty {
            Some(Type::Struct(id)) => {
                if (id as usize) < self.structs.len() {
                    assert(self@.structs[id as int] == self.structs@[id as int]@);
                    let key = Function::method_symbol(
                        self.structs[id as usize].name.as_str(),
                        name,
                    );
                    match self.callees.get(key.as_str()) {
                        Some(i) => if *i < self.symbols.len() {
                            Some(*i)
                        } else {
                            None
                        },
                        None => None,
                    }
                } else {
                    None
                }
            },
            _ => None,
        }
    }

    /// Whether there is such a variant, with so many payload values.
    fn variant_fits(&self, eid: u32, vid: u32, n: usize) -> (b: bool)
        ensures
            b == variant_fits(self@, eid, vid, n as nat),
            b ==> eid < self.enums@.len() && vid < self.enums@[eid as int].variants@.len()
                && self@.enums[eid as int].variants[vid as int].fields
                == self.enums@[eid as int].variants@[vid as int].fields@,
    {
        if (eid as usize) < self.enums.len() {
            assert(self@.enums[eid as int] == self.enums@[eid as int]@);
            if (vid as usize) < self.enums[eid as usize].variants.len() {
                assert(self@.enums[eid as int].variants[vid as int]
                    == self.enums@[eid as int].variants@[vid as int]@);
                return self.enums[eid as usize].variants[vid as usize].fields.len() == n;
            }
        }
        false
    }
}

/// The state of lowering a function.
pub struct Lowerer {
    code: Vec<Ins>,
    /// Scope stack mapping variable name -> (stack slot, type).
    vars: Vec<StringHashMap<(usize, Type)>>,
    /// (continue target, break target) for each enclosing loop.
    loops: Vec<(Label, Label)>,
    /// Fresh (+1) heap values produced while lowering the current statement;
    /// released once the statement completes unless ownership transferred.
    temps: Vec<Val>,
    /// Interned string literals.
    lits: Vec<String>,
    /// Floating-point literals.
    floats: Vec<String>,
    /// The block that instructions go to.
    here: Label,
    /// Whether that block still lacks an end.
    open: bool,
}

pub open spec fn slots_v(s: Seq<StringHashMap<(usize, Type)>>) -> Seq<Slots> {
    Seq::new(s.len(), |i: int| s[i]@)
}

/// The type of a value.
pub fn basic_type(t: Type) -> (ty: Ty)
    ensures
        ty == ty_of(t),
{
    match t {
        Type::Int => Ty::I64,
        Type::Float => Ty::F64,
        Type::Bool => Ty::I1,
        Type::Str | Type::Array(_, _) | Type::Struct(_) | Type::Enum(_) => Ty::Ptr,
        Type::Unit => Ty::Void,
    }
}

/// The element type of an array type; nothing for any other.
fn elem_type(ty: Option<Type>) -> (r: Option<Type>)
    ensures
        r == (match ty {
            Some(t) => t.elem(),
            None => None,
        }),
{
    match ty {
        Some(Type::Array(base, dims)) => if dims == 1 {
            Some(base.to_type())
        } else {
            Some(Type::Array(base, (dims as i16 - 1) as u8))
        },
        _ => None,
    }
}

/// Whether some types hold one that lives on the heap.
fn holds_heap(types: &Vec<Type>) -> (b: bool)
    ensures
        b == any_heap(types@),
{
    let mut i: usize = 0;
    while i < types.len()
        invariant
            i <= types@.len(),
            forall|k: int| 0 <= k < i ==> !(#[trigger] types@[k]).heap(),
        decreases types@.len() - i,
    {
        if types[i].is_heap() {
            return true;
        }
        i = i + 1;
    }
    false
}

/// Whether a variant of an enum carries something that lives on the heap.
fn owns_heap(def: &EnumDef) -> (b: bool)
    ensures
        b == enum_owns(def@),
{
    let mut i: usize = 0;
    while i < def.variants.len()
        invariant
            i <= def.variants@.len(),
            forall|k: int| 0 <= k < i ==> !any_heap((#[trigger] def@.variants[k]).fields),
        decreases def.variants@.len() - i,
    {
        assert(def@.variants[i as int].fields == def.variants@[i as int].fields@);
        if holds_heap(&def.variants[i].fields) {
            return true;
        }
        i = i + 1;
    }
    false
}

/// The field types of a struct.
fn types_of_fields(def: &StructDef) -> (types: Vec<Type>)
    ensures
        types@ == field_types(def@),
{
    let mut types: Vec<Type> = Vec::new();
    let mut i: usize = 0;
    while i < def.fields.len()
        invariant
            i <= def.fields@.len(),
            types@ =~= field_types(def@).take(i as int),
        decreases def.fields@.len() - i,
    {
        types.push(def.fields[i].ty);
        i = i + 1;
    }
    types
}

impl Lowerer {
    #[verifier::opaque]
    pub closed spec fn view(&self) -> Gen {
        Gen {
            code: self.code@,
            vars: slots_v(self.vars@),
            loops: self.loops@,
            temps: self.temps@,
            lits: names_v(self.lits@),
            floats: names_v(self.floats@),
            here: self.here,
            open: self.open,
        }
    }

    // ----- single instructions --------------------------------------------------------
    /// Appends an instruction; its result.
    fn emit(&mut self, i: Ins) -> (v: Val)
        ensures
            final(self)@ == emit(old(self)@, i),
            v == reg(final(self)@),
            v == Val::Reg(old(self)@.code.len() as usize),
    {
        proof {
            reveal(Lowerer::view);
        }
        let at: usize = self.code.len();
        self.code.push(i);
        match i {
            Ins::Br(_) | Ins::CondBr(_, _, _) | Ins::Ret(_, _) | Ins::RetVoid
            | Ins::Unreachable => {
                self.open = false;
            },
            _ => {},
        }
        Val::Reg(at)
    }

    /// Begins a block.
    fn begin(&mut self, l: Label)
        ensures
            final(self)@ == begin(old(self)@, l),
    {
        proof {
            reveal(Lowerer::view);
        }
        self.code.push(Ins::Label(l));
        self.here = l;
        self.open = true;
    }

    /// Branches to `l`, where the block still lacks an end.
    fn branch_if_open(&mut self, l: Label)
        ensures
            final(self)@ == branch_if_open(old(self)@, l),
    {
        if self.is_open() {
            self.emit(Ins::Br(l));
        }
    }

    /// A label of a construct that begins at the current position.
    fn label(&self, mark: Mark) -> (l: Label)
        ensures
            l == label(self@, mark),
    {
        proof {
            reveal(Lowerer::view);
        }
        Label { mark, at: self.code.len() }
    }

    /// Appends a call; its result.
    fn call(&mut self, ret: Ty, callee: Callee, args: &Vec<(Val, Ty)>) -> (v: Val)
        ensures
            final(self)@ == call(old(self)@, ret, callee, args@),
            v == reg(final(self)@),
            final(self)@ == (Gen { code: final(self)@.code, open: old(self)@.open, ..old(self)@ }),
    {
        proof {
            reveal(call);
        }
        let mut i: usize = 0;
        assert(args@.take(0) =~= Seq::empty());
        while i < args.len()
            invariant
                i <= args@.len(),
                self@ == pass(old(self)@, args@.take(i as int)),
                self@ == (Gen { code: self@.code, open: old(self)@.open, ..old(self)@ }),
            decreases args@.len() - i,
        {
            assert(args@.take(i + 1).drop_last() =~= args@.take(i as int));
            self.emit(Ins::Arg(args[i].1, args[i].0));
            i = i + 1;
        }
        assert(args@.take(i as int) =~= args@);
        self.emit(Ins::Call(ret, callee, args.len()))
    }

    /// Appends a call of a runtime function of one argument.
    fn call_rt1(&mut self, ret: Ty, rt: Rt, a: (Val, Ty)) -> (v: Val)
        ensures
            final(self)@ == call_rt(old(self)@, ret, rt, seq![a]),
            v == reg(final(self)@),
            final(self)@ == (Gen { code: final(self)@.code, open: old(self)@.open, ..old(self)@ }),
    {
        let args = vec![a];
        assert(args@ =~= seq![a]);
        self.call(ret, Callee::Runtime(rt), &args)
    }

    /// Appends a call of a runtime function of two arguments.
    fn call_rt2(&mut self, ret: Ty, rt: Rt, a: (Val, Ty), b: (Val, Ty)) -> (v: Val)
        ensures
            final(self)@ == call_rt(old(self)@, ret, rt, seq![a, b]),
            v == reg(final(self)@),
            final(self)@ == (Gen { code: final(self)@.code, open: old(self)@.open, ..old(self)@ }),
    {
        let args = vec![a, b];
        assert(args@ =~= seq![a, b]);
        self.call(ret, Callee::Runtime(rt), &args)
    }

    fn emit_retain(&mut self, v: Val)
        ensures
            final(self)@ == retain(old(self)@, v),
            final(self)@ == (Gen { code: final(self)@.code, open: old(self)@.open, ..old(self)@ }),
    {
        self.call_rt1(Ty::Void, Rt::Retain, (v, Ty::Ptr));
    }

    fn emit_release(&mut self, v: Val)
        ensures
            final(self)@ == release(old(self)@, v),
            final(self)@ == (Gen { code: final(self)@.code, open: old(self)@.open, ..old(self)@ }),
    {
        self.call_rt1(Ty::Void, Rt::Release, (v, Ty::Ptr));
    }

    // ----- statement temporaries --------------------------------------------------------
    /// A fresh heap value, to be released at the end of the statement.
    fn add_temp(&mut self, v: Val)
        ensures
            final(self)@ == with_temp(old(self)@, v),
    {
        proof {
            reveal(Lowerer::view);
        }
        self.temps.push(v);
    }

    /// Remove a heap value from the pending-release list because its
    /// ownership was transferred (into a binding or to the caller).
    fn consume_temp(&mut self, v: Val)
        ensures
            final(self)@ == consume(old(self)@, v),
    {
        proof {
            reveal(Lowerer::view);
        }
        let ghost all = self.temps@;
        let mut i: usize = self.temps.len();
        while i > 0
            invariant
                i <= self.temps@.len(),
                self.temps@ == all,
                *self == *old(self),
                all == self@.temps,
                without_last(all, v, all.len()) == without_last(all, v, i as nat),
            decreases i,
        {
            proof {
                reveal(Lowerer::view);
            }
            i = i - 1;
            if self.temps[i] == v {
                self.temps.remove(i);
                return;
            }
        }
    }

    /// Release every pending temp created since `from` (a checkpoint index).
    fn flush_temps(&mut self, from: usize)
        ensures
            final(self)@ == flush(old(self)@, from as nat),
            final(self)@ == (Gen {
                code: final(self)@.code,
                temps: final(self)@.temps,
                ..old(self)@
            }),
    {
        proof {
            reveal(Lowerer::view);
        }
        while self.temps.len() > from
            invariant
                flush(self@, from as nat) == flush(old(self)@, from as nat),
                self@ == (Gen { code: self@.code, temps: self@.temps, ..old(self)@ }),
            decreases self.temps@.len(),
        {
            proof {
                reveal(Lowerer::view);
            }
            let last: usize = self.temps.len() - 1;
            let v: Val = self.temps[last];
            let ghost before = self@;
            self.temps.pop();
            assert(self@.temps =~= before.temps.drop_last());
            self.emit_release(v);
        }
    }

    // ----- variables and literals --------------------------------------------------------
    fn lookup(&self, name: &str) -> (r: Option<(usize, Type)>)
        ensures
            r == find_var(self@.vars, name@),
    {
        proof {
            reveal(Lowerer::view);
        }
        let mut i: usize = self.vars.len();
        assert(self@.vars.take(i as int) =~= self@.vars);
        while i > 0
            invariant
                i <= self.vars@.len(),
                find_var(self@.vars, name@) == find_var(self@.vars.take(i as int), name@),
            decreases i,
        {
            proof {
                reveal(Lowerer::view);
            }
            i = i - 1;
            assert(self@.vars.take(i + 1).last() == self.vars@[i as int]@);
            assert(self@.vars.take(i + 1).drop_last() =~= self@.vars.take(i as int));
            if let Some(v) = self.vars[i].get(name) {
                return Some(*v);
            }
        }
        None
    }

    /// The variable of that name that `k` others hide.
    fn lookup_hidden(&self, name: &str, k: usize) -> (r: Option<(usize, Type)>)
        ensures
            r == find_hidden(self@.vars, name@, k as nat),
    {
        proof {
            reveal(Lowerer::view);
        }
        let mut i: usize = self.vars.len();
        let mut left: usize = k;
        assert(self@.vars.take(i as int) =~= self@.vars);
        while i > 0
            invariant
                i <= self.vars@.len(),
                find_hidden(self@.vars, name@, k as nat) == find_hidden(
                    self@.vars.take(i as int),
                    name@,
                    left as nat,
                ),
            decreases i,
        {
            proof {
                reveal(Lowerer::view);
            }
            i = i - 1;
            assert(self@.vars.take(i + 1).last() == self.vars@[i as int]@);
            assert(self@.vars.take(i + 1).drop_last() =~= self@.vars.take(i as int));
            if let Some(v) = self.vars[i].get(name) {
                if left == 0 {
                    return Some(*v);
                }
                left = left - 1;
            }
        }
        None
    }

    fn declare(&mut self, name: &str, slot: usize, ty: Type)
        requires
            old(self)@.vars.len() > 0,
        ensures
            final(self)@ == with_var(old(self)@, name@, slot, ty),
    {
        proof {
            reveal(Lowerer::view);
        }
        let last: usize = self.vars.len() - 1;
        self.vars[last].insert(String::from_str(name), (slot, ty));
        assert(self@.vars =~= with_var(old(self)@, name@, slot, ty).vars);
    }

    fn push_scope(&mut self)
        ensures
            final(self)@ == push_scope(old(self)@),
    {
        proof {
            reveal(Lowerer::view);
        }
        self.vars.push(StringHashMap::new());
        assert(self@.vars =~= push_scope(old(self)@).vars);
    }

    fn pop_scope(&mut self)
        requires
            old(self)@.vars.len() > 0,
        ensures
            final(self)@ == pop_scope(old(self)@),
    {
        proof {
            reveal(Lowerer::view);
        }
        self.vars.pop();
        assert(self@.vars =~= pop_scope(old(self)@).vars);
    }

    /// A stack slot for a variable, and the value stored into it; the slot.
    fn bind_var(&mut self, name: &str, ty: Type, v: Val) -> (slot: usize)
        requires
            old(self)@.vars.len() > 0,
        ensures
            final(self)@ == bind_var(old(self)@, name@, ty, v),
            slot == old(self)@.code.len() as usize,
            final(self)@ == (Gen {
                code: final(self)@.code,
                vars: final(self)@.vars,
                ..old(self)@
            }),
            final(self)@.vars.len() == old(self)@.vars.len(),
            final(self)@.vars.drop_last() == old(self)@.vars.drop_last(),
    {
        let slot: usize = self.position();
        self.emit(Ins::Alloca(basic_type(ty)));
        self.emit(Ins::Store(basic_type(ty), v, Val::Reg(slot)));
        self.declare(name, slot, ty);
        assert(self@.vars.drop_last() =~= old(self)@.vars.drop_last());
        slot
    }

    /// Interned string literal.
    fn str_literal(&mut self, s: &str) -> (v: Val)
        ensures
            (final(self)@, v) == literal(old(self)@, s@),
            final(self)@ == (Gen { lits: final(self)@.lits, ..old(self)@ }),
    {
        proof {
            reveal(Lowerer::view);
        }
        let mut i: usize = 0;
        while i < self.lits.len()
            invariant
                i <= self.lits@.len(),
                *self == *old(self),
                text_index(self@.lits, s@, 0) == text_index(self@.lits, s@, i as int),
            decreases self.lits@.len() - i,
        {
            proof {
                reveal(Lowerer::view);
            }
            assert(self@.lits[i as int] == self.lits@[i as int]@);
            if same(self.lits[i].as_str(), s) {
                return Val::Lit(i);
            }
            i = i + 1;
        }
        let ghost before = self@.lits;
        self.lits.push(String::from_str(s));
        assert(self@.lits =~= before.push(s@));
        Val::Lit(i)
    }

    /// A floating-point literal.
    fn float_literal(&mut self, s: &str) -> (v: Val)
        ensures
            v == Val::Float(old(self)@.floats.len() as usize),
            final(self)@ == (Gen { floats: old(self)@.floats.push(s@), ..old(self)@ }),
    {
        proof {
            reveal(Lowerer::view);
        }
        let at: usize = self.floats.len();
        let ghost before = self@.floats;
        self.floats.push(String::from_str(s));
        assert(self@.floats =~= before.push(s@));
        Val::Float(at)
    }

    /// The number of pending temporaries.
    fn temp_count(&self) -> (n: usize)
        ensures
            n == self@.temps.len(),
    {
        proof {
            reveal(Lowerer::view);
        }
        self.temps.len()
    }

    /// The last pending temporary.
    fn last_temp(&self) -> (v: Option<Val>)
        ensures
            v == (if self@.temps.len() > 0 {
                Some(self@.temps.last())
            } else {
                None
            }),
    {
        proof {
            reveal(Lowerer::view);
        }
        if self.temps.len() > 0 {
            Some(self.temps[self.temps.len() - 1])
        } else {
            None
        }
    }

    /// The block that instructions go to.
    fn current(&self) -> (l: Label)
        ensures
            l == self@.here,
    {
        proof {
            reveal(Lowerer::view);
        }
        self.here
    }

    /// Whether the current block still lacks an end.
    fn is_open(&self) -> (b: bool)
        ensures
            b == self@.open,
    {
        proof {
            reveal(Lowerer::view);
        }
        self.open
    }

    /// The position of the next instruction.
    fn position(&self) -> (n: usize)
        ensures
            n == self@.code.len(),
    {
        proof {
            reveal(Lowerer::view);
        }
        self.code.len()
    }

    fn push_loop(&mut self, next: Label, end: Label)
        ensures
            final(self)@ == (Gen { loops: old(self)@.loops.push((next, end)), ..old(self)@ }),
    {
        proof {
            reveal(Lowerer::view);
        }
        self.loops.push((next, end));
    }

    fn pop_loop(&mut self)
        requires
            old(self)@.loops.len() > 0,
        ensures
            final(self)@ == (Gen { loops: old(self)@.loops.drop_last(), ..old(self)@ }),
    {
        proof {
            reveal(Lowerer::view);
        }
        self.loops.pop();
    }

    /// The targets of the innermost loop.
    fn innermost(&self) -> (t: Option<(Label, Label)>)
        ensures
            t == (if self@.loops.len() > 0 {
                Some(self@.loops.last())
            } else {
                None
            }),
    {
        proof {
            reveal(Lowerer::view);
        }
        if self.loops.len() > 0 {
            Some(self.loops[self.loops.len() - 1])
        } else {
            None
        }
    }

    // ----- words -------------------------------------------------------------------------
    /// Pack a value into the 8-byte word stored in an array buffer.
    fn to_word(&mut self, v: Val, elem: Type) -> (w: Val)
        ensures
            (final(self)@, w) == to_word(old(self)@, v, elem),
            final(self)@ == (Gen { code: final(self)@.code, ..old(self)@ }),
    {
        match basic_type(elem) {
            Ty::F64 => self.emit(Ins::Convert(Conv::FloatBits, v)),
            Ty::I1 => self.emit(Ins::Convert(Conv::BoolWord, v)),
            Ty::Ptr => self.emit(Ins::Convert(Conv::PtrWord, v)),
            _ => v,
        }
    }

    /// Unpack an 8-byte array word back into a typed value.
    fn from_word(&mut self, w: Val, elem: Type) -> (v: Val)
        ensures
            (final(self)@, v) == from_word(old(self)@, w, elem),
            final(self)@ == (Gen { code: final(self)@.code, ..old(self)@ }),
    {
        match basic_type(elem) {
            Ty::F64 => self.emit(Ins::Convert(Conv::BitsFloat, w)),
            Ty::I1 => self.emit(Ins::Convert(Conv::WordBool, w)),
            Ty::Ptr => self.emit(Ins::Convert(Conv::WordPtr, w)),
            _ => w,
        }
    }

    // ----- pieces of expressions -----------------------------------------------------------
    fn compile_var(&mut self, name: &str) -> (r: Result<Value, String>)
        ensures
            match r {
                Ok(v) => low_var(old(self)@, name@) == Ok::<_, Seq<char>>((final(self)@, v)),
                Err(m) => low_var(old(self)@, name@) matches Err(e) && e == m@,
            },
            final(self)@.vars == old(self)@.vars,
            final(self)@.loops == old(self)@.loops,
    {
        proof {
            reveal(low_var);
        }
        match self.lookup(name) {
            Some((slot, ty)) => {
                let v = self.emit(Ins::Load(basic_type(ty), Val::Reg(slot)));
                Ok((v, basic_type(ty)))
            },
            None => Err(cat3("codegen: unknown variable `", name, "`")),
        }
    }

    fn compile_unary(&mut self, op: UnOp, v: Value) -> (r: Result<Value, String>)
        ensures
            match r {
                Ok(w) => low_unary(old(self)@, op, v) == Ok::<_, Seq<char>>((final(self)@, w)),
                Err(m) => low_unary(old(self)@, op, v) matches Err(e) && e == m@,
            },
            final(self)@.vars == old(self)@.vars,
            final(self)@.loops == old(self)@.loops,
    {
        proof {
            reveal(low_unary);
        }
        match (op, v.1) {
            (UnOp::Neg, Ty::I64) => {
                let w = self.emit(Ins::Bin(Op::Sub, Ty::I64, Val::Int(0), v.0));
                Ok((w, Ty::I64))
            },
            (UnOp::Neg, Ty::F64) => {
                let w = self.emit(Ins::FNeg(v.0));
                Ok((w, Ty::F64))
            },
            (UnOp::Not, Ty::I1) => {
                let w = self.emit(Ins::Bin(Op::Xor, Ty::I1, v.0, Val::Bool(true)));
                Ok((w, Ty::I1))
            },
            _ => Err(String::from_str("codegen: invalid unary operand")),
        }
    }

    /// An operation on strings: `+` concatenates, `==` and `!=` compare by
    /// value.
    fn compile_str_op(&mut self, op: BinOp, l: Val, r: Val) -> (res: Result<Value, String>)
        ensures
            match res {
                Ok(v) => str_op(old(self)@, op, l, r) == Ok::<_, Seq<char>>((final(self)@, v)),
                Err(m) => str_op(old(self)@, op, l, r) matches Err(e) && e == m@,
            },
            final(self)@.vars == old(self)@.vars,
            final(self)@.loops == old(self)@.loops,
    {
        proof {
            reveal(str_op);
        }
        match op {
            BinOp::Add => {
                let v = self.call_rt2(Ty::Ptr, Rt::StrConcat, (l, Ty::Ptr), (r, Ty::Ptr));
                self.add_temp(v);
                Ok((v, Ty::Ptr))
            },
            BinOp::Eq => {
                let v = self.call_rt2(Ty::I1, Rt::StrEq, (l, Ty::Ptr), (r, Ty::Ptr));
                Ok((v, Ty::I1))
            },
            BinOp::Ne => {
                let eq = self.call_rt2(Ty::I1, Rt::StrEq, (l, Ty::Ptr), (r, Ty::Ptr));
                let v = self.emit(Ins::Bin(Op::Xor, Ty::I1, eq, Val::Bool(true)));
                Ok((v, Ty::I1))
            },
            _ => Err(String::from_str("codegen: unsupported string operation")),
        }
    }

    /// A binary operation on two values (`and` and `or` need control flow, and
    /// never come here).
    fn compile_binary(&mut self, op: BinOp, l: Value, r: Value) -> (res: Result<Value, String>)
        ensures
            match res {
                Ok(v) => low_binary(old(self)@, op, l, r) == Ok::<_, Seq<char>>((final(self)@, v)),
                Err(m) => low_binary(old(self)@, op, l, r) matches Err(e) && e == m@,
            },
            final(self)@.vars == old(self)@.vars,
            final(self)@.loops == old(self)@.loops,
    {
        proof {
            reveal(low_binary);
        }
        if l.1 != r.1 {
            return Err(String::from_str("codegen: mismatched binary operand types"));
        }
        let made = match l.1 {
            Ty::I64 | Ty::I1 => int_ins(op, l.1, l.0, r.0),
            Ty::F64 => float_ins(op, l.0, r.0),
            Ty::Ptr => {
                return self.compile_str_op(op, l.0, r.0);
            },
            _ => None,
        };
        match made {
            Some((i, ty)) => {
                let v = self.emit(i);
                Ok((v, ty))
            },
            None => Err(String::from_str("codegen: mismatched binary operand types")),
        }
    }

    fn bool_text(&mut self, v: Val) -> (s: Val)
        ensures
            (final(self)@, s) == bool_text(old(self)@, v),
            final(self)@.vars == old(self)@.vars,
            final(self)@.loops == old(self)@.loops,
    {
        proof {
            reveal(bool_text);
        }
        let t = self.str_literal("true");
        let f = self.str_literal("false");
        self.emit(Ins::Select(v, Ty::Ptr, t, f))
    }

    fn emit_printf(&mut self, format: &str, v: Value)
        ensures
            final(self)@ == printf(old(self)@, format@, v),
            final(self)@.vars == old(self)@.vars,
            final(self)@.loops == old(self)@.loops,
    {
        proof {
            reveal(printf);
        }
        let f = self.str_literal(format);
        let args = vec![(f, Ty::Ptr), v];
        assert(args@ =~= seq![(f, Ty::Ptr), v]);
        self.call(Ty::I32, Callee::C(Libc::Printf), &args);
    }

    /// Compiler builtin: `print(x)` lowers to a libc `printf` call.
    fn compile_print(&mut self, v: Val, ty: Option<Type>) -> (r: Result<(), String>)
        ensures
            match r {
                Ok(_) => low_print(old(self)@, v, ty) == Ok::<_, Seq<char>>(final(self)@),
                Err(m) => low_print(old(self)@, v, ty) matches Err(e) && e == m@,
            },
            final(self)@.vars == old(self)@.vars,
            final(self)@.loops == old(self)@.loops,
    {
        proof {
            reveal(low_print);
        }
        match ty {
            Some(Type::Int) => self.emit_printf("%lld\n", (v, Ty::I64)),
            Some(Type::Float) => self.emit_printf("%g\n", (v, Ty::F64)),
            Some(Type::Str) => self.emit_printf("%s\n", (v, Ty::Ptr)),
            Some(Type::Bool) => {
                let s = self.bool_text(v);
                self.emit_printf("%s\n", (s, Ty::Ptr));
            },
            _ => {
                return Err(String::from_str("codegen: cannot print this type"));
            },
        }
        Ok(())
    }

    fn compile_str(&mut self, v: Val, ty: Option<Type>) -> (r: Result<Value, String>)
        ensures
            match r {
                Ok(w) => low_str(old(self)@, v, ty) == Ok::<_, Seq<char>>((final(self)@, w)),
                Err(m) => low_str(old(self)@, v, ty) matches Err(e) && e == m@,
            },
            final(self)@.vars == old(self)@.vars,
            final(self)@.loops == old(self)@.loops,
    {
        proof {
            reveal(low_str);
        }
        let s = match ty {
            Some(Type::Int) => self.call_rt1(Ty::Ptr, Rt::IntToStr, (v, Ty::I64)),
            Some(Type::Float) => self.call_rt1(Ty::Ptr, Rt::FloatToStr, (v, Ty::F64)),
            Some(Type::Bool) => self.bool_text(v),
            Some(Type::Str) => self.call_rt1(Ty::Ptr, Rt::StrDup, (v, Ty::Ptr)),
            Some(other) => {
                return Err(cat2("codegen: str() of ", other.to_text().as_str()));
            },
            None => {
                return Err(String::from_str("codegen: str() of an untyped value"));
            },
        };
        self.add_temp(s);
        Ok((s, Ty::Ptr))
    }

    fn compile_len(&mut self, v: Val, ty: Option<Type>) -> (r: Result<Value, String>)
        ensures
            match r {
                Ok(w) => low_len(old(self)@, v, ty) == Ok::<_, Seq<char>>((final(self)@, w)),
                Err(m) => low_len(old(self)@, v, ty) matches Err(e) && e == m@,
            },
            final(self)@.vars == old(self)@.vars,
            final(self)@.loops == old(self)@.loops,
    {
        proof {
            reveal(low_len);
        }
        match ty {
            Some(Type::Str) => {
                let args = vec![(v, Ty::Ptr)];
                assert(args@ =~= seq![(v, Ty::Ptr)]);
                let n = self.call(Ty::I64, Callee::C(Libc::Strlen), &args);
                Ok((n, Ty::I64))
            },
            // The array value points directly at its length field.
            Some(Type::Array(_, _)) => {
                let n = self.emit(Ins::Load(Ty::I64, v));
                Ok((n, Ty::I64))
            },
            Some(other) => Err(cat2("codegen: len of ", other.to_text().as_str())),
            None => Err(String::from_str("codegen: len of an untyped value")),
        }
    }

    fn compile_push(&mut self, arr: Val, v: Val, elem: Type)
        ensures
            final(self)@ == low_push(old(self)@, arr, v, elem),
            final(self)@.vars == old(self)@.vars,
            final(self)@.loops == old(self)@.loops,
    {
        proof {
            reveal(low_push);
        }
        // The runtime retains heap elements; a fresh temp's own +1 is then
        // dropped by the statement flush, leaving the array's ref.
        let w = self.to_word(v, elem);
        self.call_rt2(Ty::Void, Rt::ArrPush, (arr, Ty::Ptr), (w, Ty::I64));
    }

    /// A call of a symbol. Xia functions return +1 owned values; a `str` from a
    /// foreign function is copied into a fresh Xia string.
    fn compile_symbol(&mut self, cx: &Decls, index: usize, args: &Vec<Value>) -> (r: Option<Value>)
        requires
            index < cx.symbols@.len(),
        ensures
            (final(self)@, r) == low_symbol(cx@, old(self)@, index, args@),
            final(self)@.vars == old(self)@.vars,
            final(self)@.loops == old(self)@.loops,
    {
        proof {
            reveal(low_symbol);
        }
        let sym = &cx.symbols[index];
        assert(cx@.symbols[index as int] == sym@);
        let v = self.call(basic_type(sym.ret), Callee::Symbol(index), args);
        if sym.ret == Type::Unit {
            return None;
        }
        if sym.ret == Type::Str && sym.is_extern {
            let copy = self.call_rt1(Ty::Ptr, Rt::StrDup, (v, Ty::Ptr));
            self.add_temp(copy);
            return Some((copy, Ty::Ptr));
        }
        if sym.ret.is_heap() && !sym.is_extern {
            self.add_temp(v);
            return Some((v, Ty::Ptr));
        }
        Some((v, basic_type(sym.ret)))
    }

    /// Fills the words of a block with values, from word `at` on; each heap
    /// value is retained, since the block takes a reference of its own.
    fn fill(&mut self, block: Val, at: usize, types: &Vec<Type>, vals: &Vec<Value>)
        requires
            vals@.len() <= types@.len(),
        ensures
            final(self)@ == fill(old(self)@, block, at as nat, types@, vals@),
            final(self)@.temps == old(self)@.temps,
            final(self)@.vars == old(self)@.vars,
            final(self)@.loops == old(self)@.loops,
    {
        let mut i: usize = 0;
        assert(vals@.take(0) =~= Seq::empty());
        while i < vals.len()
            invariant
                i <= vals@.len() <= types@.len(),
                self@ == fill(old(self)@, block, at as nat, types@, vals@.take(i as int)),
                self@.vars == old(self)@.vars,
                self@.loops == old(self)@.loops,
                self@.temps == old(self)@.temps,
            decreases vals@.len() - i,
        {
            assert(vals@.take(i + 1).drop_last() =~= vals@.take(i as int));
            assert(vals@.take(i + 1)[i as int] == vals@[i as int]);
            if types[i].is_heap() {
                self.emit_retain(vals[i].0);
            }
            let word: i64 = (at as u128 + i as u128) as i64;
            let slot = self.emit(Ins::Gep(Ty::I64, block, Val::Int(word)));
            self.emit(Ins::Store(basic_type(types[i]), vals[i].0, slot));
            i = i + 1;
        }
        assert(vals@.take(i as int) =~= vals@);
    }

    fn compile_struct(&mut self, cx: &Decls, id: u32, vals: &Vec<Value>) -> (v: Value)
        requires
            id < cx.structs@.len(),
            vals@.len() == cx.structs@[id as int].fields@.len(),
        ensures
            (final(self)@, v) == low_struct(cx@, old(self)@, id, vals@),
            final(self)@.vars == old(self)@.vars,
            final(self)@.loops == old(self)@.loops,
    {
        proof {
            reveal(low_struct);
        }
        let def = &cx.structs[id as usize];
        assert(cx@.structs[id as int] == def@);
        let types = types_of_fields(def);
        let kind = if holds_heap(&types) {
            Val::DropStruct(id)
        } else {
            Val::Null
        };
        let words: i64 = vals.len() as i64;
        let block = self.call_rt2(
            Ty::Ptr,
            Rt::New,
            (kind, Ty::Ptr),
            (Val::Int(words), Ty::I64),
        );
        self.fill(block, 0, &types, vals);
        self.add_temp(block);
        (block, Ty::Ptr)
    }

    fn compile_variant(&mut self, cx: &Decls, eid: u32, vid: u32, vals: &Vec<Value>) -> (v: Value)
        requires
            eid < cx.enums@.len(),
            vid < cx.enums@[eid as int].variants@.len(),
            vals@.len() == cx.enums@[eid as int].variants@[vid as int].fields@.len(),
        ensures
            (final(self)@, v) == low_variant(cx@, old(self)@, eid, vid, vals@),
            final(self)@.vars == old(self)@.vars,
            final(self)@.loops == old(self)@.loops,
    {
        proof {
            reveal(low_variant);
        }
        let def = &cx.enums[eid as usize];
        assert(cx@.enums[eid as int] == def@);
        let variant = &def.variants[vid as usize];
        assert(def@.variants[vid as int] == variant@);
        let kind = if owns_heap(def) {
            Val::DropEnum(eid)
        } else {
            Val::Null
        };
        let words: i64 = (vals.len() as u128 + 1) as i64;
        let block = self.call_rt2(
            Ty::Ptr,
            Rt::New,
            (kind, Ty::Ptr),
            (Val::Int(words), Ty::I64),
        );
        self.emit(Ins::Store(Ty::I64, Val::Int(vid as i64), block));
        self.fill(block, 1, &variant.fields, vals);
        self.add_temp(block);
        (block, Ty::Ptr)
    }

    fn compile_field(&mut self, base: Val, index: usize, ty: Type) -> (r: Value)
        ensures
            (final(self)@, r) == low_field(old(self)@, base, index as int, ty),
            final(self)@.vars == old(self)@.vars,
            final(self)@.loops == old(self)@.loops,
    {
        proof {
            reveal(low_field);
        }
        let slot = self.emit(Ins::Gep(Ty::I64, base, Val::Int(index as i64)));
        let v = self.emit(Ins::Load(basic_type(ty), slot));
        if ty.is_heap() {
            self.emit_retain(v);
            self.add_temp(v);
            (v, Ty::Ptr)
        } else {
            (v, basic_type(ty))
        }
    }

    fn compile_index(&mut self, arr: Val, index: Val, elem: Type) -> (r: Value)
        ensures
            (final(self)@, r) == low_index(old(self)@, arr, index, elem),
            final(self)@.vars == old(self)@.vars,
            final(self)@.loops == old(self)@.loops,
    {
        proof {
            reveal(low_index);
        }
        let raw = self.call_rt2(Ty::I64, Rt::ArrGet, (arr, Ty::Ptr), (index, Ty::I64));
        let v = self.from_word(raw, elem);
        if elem.is_heap() {
            // The runtime returns heap elements retained (+1).
            self.add_temp(v);
            (v, Ty::Ptr)
        } else {
            (v, basic_type(elem))
        }
    }

    /// A builtin of one argument.
    fn compile_builtin(&mut self, name: &str, v: Val, ty: Option<Type>)
        -> (r: Result<Option<Value>, String>)
        ensures
            match r {
                Ok(w) => low_builtin(old(self)@, name@, v, ty)
                    == Ok::<_, Seq<char>>((final(self)@, w)),
                Err(m) => low_builtin(old(self)@, name@, v, ty) matches Err(e) && e == m@,
            },
            final(self)@.vars == old(self)@.vars,
            final(self)@.loops == old(self)@.loops,
    {
        proof {
            reveal(low_builtin);
        }
        if same(name, "print") {
            return match self.compile_print(v, ty) {
                Ok(_) => Ok(None),
                Err(m) => Err(m),
            };
        }
        let made = if same(name, "str") {
            self.compile_str(v, ty)
        } else {
            self.compile_len(v, ty)
        };
        match made {
            Ok(w) => Ok(Some(w)),
            Err(m) => Err(m),
        }
    }

    // ----- expressions -------------------------------------------------------------------
    fn compile_expr(&mut self, cx: &Decls, e: &Expr) -> (r: Result<Value, String>)
        ensures
            match r {
                Ok(v) => low_expr(cx@, old(self)@, e@) == Ok::<_, Seq<char>>((final(self)@, v)),
                Err(m) => low_expr(cx@, old(self)@, e@) matches Err(e) && e == m@,
            },
            final(self)@.vars == old(self)@.vars,
            final(self)@.loops == old(self)@.loops,
        decreases *e, 2nat,
    {
        assert(e@.kind == kind_v(e.kind));
        match &e.kind {
            ExprKind::Int(n) => Ok((Val::Int(*n), Ty::I64)),
            ExprKind::Float(s) => {
                let v = self.float_literal(s.as_str());
                Ok((v, Ty::F64))
            },
            ExprKind::Bool(b) => Ok((Val::Bool(*b), Ty::I1)),
            ExprKind::Str(s) => {
                let v = self.str_literal(s.as_str());
                Ok((v, Ty::Ptr))
            },
            ExprKind::Var(name) => self.compile_var(name.as_str()),
            ExprKind::Unary(op, a) => {
                let v = match self.compile_expr(cx, a) {
                    Ok(v) => v,
                    Err(m) => {
                        return Err(m);
                    },
                };
                self.compile_unary(*op, v)
            },
            ExprKind::Binary(a, op, b) => {
                // Short-circuit `and` / `or` need control flow, not plain
                // instructions.
                if *op == BinOp::And || *op == BinOp::Or {
                    return self.compile_short_circuit(cx, e);
                }
                let l = match self.compile_expr(cx, a) {
                    Ok(v) => v,
                    Err(m) => {
                        return Err(m);
                    },
                };
                let r = match self.compile_expr(cx, b) {
                    Ok(v) => v,
                    Err(m) => {
                        return Err(m);
                    },
                };
                self.compile_binary(*op, l, r)
            },
            ExprKind::Call(name, args) => {
                let made = match self.compile_call(cx, name.as_str(), args, e.span.line) {
                    Ok(v) => v,
                    Err(m) => {
                        return Err(m);
                    },
                };
                match made {
                    Some(v) => Ok(v),
                    None => Err(returns_nothing(name.as_str(), e.span.line)),
                }
            },
            ExprKind::MethodCall(_, name, _) => {
                let made = match self.compile_method(cx, e) {
                    Ok(v) => v,
                    Err(m) => {
                        return Err(m);
                    },
                };
                match made {
                    Some(v) => Ok(v),
                    None => Err(returns_nothing(name.as_str(), e.span.line)),
                }
            },
            ExprKind::ArrayLit(es) => self.compile_array(cx, es, e.ty),
            ExprKind::Index(a, b) => {
                let elem = match elem_type(a.ty) {
                    Some(elem) => elem,
                    None => {
                        return Err(String::from_str("codegen: indexing a non-array"));
                    },
                };
                let arr = match self.compile_expr(cx, a) {
                    Ok(v) => v,
                    Err(m) => {
                        return Err(m);
                    },
                };
                let i = match self.compile_expr(cx, b) {
                    Ok(v) => v,
                    Err(m) => {
                        return Err(m);
                    },
                };
                Ok(self.compile_index(arr.0, i.0, elem))
            },
            ExprKind::Field(a, name) => {
                let (index, ty) = match cx.field_place(a.ty, name.as_str()) {
                    Some(place) => place,
                    None => {
                        return Err(cat3("codegen: no field `", name.as_str(), "`"));
                    },
                };
                let base = match self.compile_expr(cx, a) {
                    Ok(v) => v,
                    Err(m) => {
                        return Err(m);
                    },
                };
                Ok(self.compile_field(base.0, index, ty))
            },
            ExprKind::EnumInit(eid, vid, args) => {
                if !cx.variant_fits(*eid, *vid, args.len()) {
                    return Err(String::from_str("codegen: no such variant"));
                }
                let vals = match self.compile_exprs(cx, args) {
                    Ok(v) => v,
                    Err(m) => {
                        return Err(m);
                    },
                };
                Ok(self.compile_variant(cx, *eid, *vid, &vals))
            },
        }
    }

    /// Some expressions, from the left, and their values.
    fn compile_exprs(&mut self, cx: &Decls, es: &Vec<Expr>) -> (r: Result<Vec<Value>, String>)
        ensures
            match r {
                Ok(v) => low_exprs(cx@, old(self)@, exprs_v(es@), es@.len())
                    == Ok::<_, Seq<char>>((final(self)@, v@)),
                Err(m) => low_exprs(cx@, old(self)@, exprs_v(es@), es@.len()) matches Err(e)
                    && e == m@,
            },
            r matches Ok(v) ==> v@.len() == es@.len(),
            final(self)@.vars == old(self)@.vars,
            final(self)@.loops == old(self)@.loops,
        decreases *es, 0nat,
    {
        let ghost given = exprs_v(es@);
        let mut vals: Vec<Value> = Vec::new();
        let mut i: usize = 0;
        assert(vals@ =~= Seq::empty());
        while i < es.len()
            invariant
                i <= es@.len(),
                given == exprs_v(es@),
                vals@.len() == i,
                low_exprs(cx@, old(self)@, given, i as nat) == Ok::<_, Seq<char>>(
                    (self@, vals@),
                ),
                self@.vars == old(self)@.vars,
                self@.loops == old(self)@.loops,
            decreases es@.len() - i,
        {
            assert(given[i as int] == es@[i as int]@);
            assert(decreases_to!(*es => es@[i as int]));
            match self.compile_expr(cx, &es[i]) {
                Ok(v) => {
                    vals.push(v);
                },
                Err(m) => {
                    proof {
                        lemma_exprs_fault(cx@, old(self)@, given, (i + 1) as nat, given.len());
                    }
                    return Err(m);
                },
            }
            i = i + 1;
        }
        Ok(vals)
    }

    fn compile_short_circuit(&mut self, cx: &Decls, e: &Expr) -> (r: Result<Value, String>)
        requires
            e.kind is Binary,
        ensures
            match r {
                Ok(v) => low_short_circuit(cx@, old(self)@, e@)
                    == Ok::<_, Seq<char>>((final(self)@, v)),
                Err(m) => low_short_circuit(cx@, old(self)@, e@) matches Err(e) && e == m@,
            },
            final(self)@.vars == old(self)@.vars,
            final(self)@.loops == old(self)@.loops,
        decreases *e, 1nat,
    {
        assert(e@.kind == kind_v(e.kind));
        match &e.kind {
            ExprKind::Binary(a, op, b) => {
                // Release only temps created inside this short-circuit: both
                // operands are bool, so any string temps are dead once the i1
                // is computed.
                let checkpoint: usize = self.temp_count();
                let l = match self.compile_expr(cx, a) {
                    Ok(v) => v,
                    Err(m) => {
                        return Err(m);
                    },
                };
                self.flush_temps(checkpoint);
                let lhs_end = self.current();
                let rhs = self.label(Mark::ScRhs);
                let end = self.label(Mark::ScEnd);
                let branch = if *op == BinOp::And {
                    Ins::CondBr(l.0, rhs, end)
                } else {
                    Ins::CondBr(l.0, end, rhs)
                };
                self.emit(branch);
                // String temps created on a conditional path must be released
                // on that path — their SSA values don't dominate the merge
                // block.
                self.begin(rhs);
                let r = match self.compile_expr(cx, b) {
                    Ok(v) => v,
                    Err(m) => {
                        return Err(m);
                    },
                };
                self.flush_temps(checkpoint);
                let rhs_end = self.current();
                self.emit(Ins::Br(end));
                self.begin(end);
                let v = self.emit(
                    Ins::Phi(Ty::I1, Val::Bool(*op == BinOp::Or), lhs_end, r.0, rhs_end),
                );
                Ok((v, Ty::I1))
            },
            _ => Err(String::new()),
        }
    }

    /// A call and its value, if it has one.
    fn compile_call(&mut self, cx: &Decls, name: &str, args: &Vec<Expr>, line: usize)
        -> (r: Result<Option<Value>, String>)
        ensures
            match r {
                Ok(v) => low_call(cx@, old(self)@, name@, exprs_v(args@), line)
                    == Ok::<_, Seq<char>>((final(self)@, v)),
                Err(m) => low_call(cx@, old(self)@, name@, exprs_v(args@), line) matches Err(e)
                    && e == m@,
            },
            final(self)@.vars == old(self)@.vars,
            final(self)@.loops == old(self)@.loops,
        decreases *args, 2nat,
    {
        let ghost given = exprs_v(args@);
        if same(name, "print") || same(name, "str") || same(name, "len") {
            if args.len() != 1 {
                return Err(wrong_count(name));
            }
            assert(given[0] == args@[0]@);
            let v = match self.compile_expr(cx, &args[0]) {
                Ok(v) => v,
                Err(m) => {
                    return Err(m);
                },
            };
            return self.compile_builtin(name, v.0, args[0].ty);
        }
        if same(name, "push") {
            if args.len() != 2 {
                return Err(wrong_count(name));
            }
            assert(given[0] == args@[0]@);
            assert(given[1] == args@[1]@);
            let elem = match elem_type(args[0].ty) {
                Some(elem) => elem,
                None => {
                    return Err(String::from_str("codegen: push to a non-array"));
                },
            };
            let arr = match self.compile_expr(cx, &args[0]) {
                Ok(v) => v,
                Err(m) => {
                    return Err(m);
                },
            };
            let v = match self.compile_expr(cx, &args[1]) {
                Ok(v) => v,
                Err(m) => {
                    return Err(m);
                },
            };
            self.compile_push(arr.0, v.0, elem);
            return Ok(None);
        }
        if let Some(id) = cx.struct_ids.get(name) {
            if (*id as usize) < cx.structs.len() {
                assert(cx@.structs[*id as int] == cx.structs@[*id as int]@);
            }
            if *id as usize >= cx.structs.len() || cx.structs[*id as usize].fields.len()
                != args.len() {
                return Err(wrong_count(name));
            }
            let vals = match self.compile_exprs(cx, args) {
                Ok(v) => v,
                Err(m) => {
                    return Err(m);
                },
            };
            return Ok(Some(self.compile_struct(cx, *id, &vals)));
        }
        if let Some(i) = cx.callees.get(name) {
            if *i < cx.symbols.len() {
                let vals = match self.compile_exprs(cx, args) {
                    Ok(v) => v,
                    Err(m) => {
                        return Err(m);
                    },
                };
                return Ok(self.compile_symbol(cx, *i, &vals));
            }
        }
        Err(
            cat5(
                "codegen: unknown function `",
                name,
                "` (line ",
                dec_usize(line).as_str(),
                ")",
            ),
        )
    }

    /// A method call: a direct call with the receiver as the first argument.
    fn compile_method(&mut self, cx: &Decls, e: &Expr) -> (r: Result<Option<Value>, String>)
        requires
            e.kind is MethodCall,
        ensures
            match r {
                Ok(v) => low_method(cx@, old(self)@, e@) == Ok::<_, Seq<char>>((final(self)@, v)),
                Err(m) => low_method(cx@, old(self)@, e@) matches Err(e) && e == m@,
            },
            final(self)@.vars == old(self)@.vars,
            final(self)@.loops == old(self)@.loops,
        decreases *e, 1nat,
    {
        assert(e@.kind == kind_v(e.kind));
        match &e.kind {
            ExprKind::MethodCall(recv, name, args) => {
                let index: usize = match cx.method_place(recv.ty, name.as_str()) {
                    Some(i) => i,
                    None => {
                        return Err(
                            cat5(
                                "codegen: unknown method `",
                                name.as_str(),
                                "` (line ",
                                dec_usize(e.span.line).as_str(),
                                ")",
                            ),
                        );
                    },
                };
                let base = match self.compile_expr(cx, recv) {
                    Ok(v) => v,
                    Err(m) => {
                        return Err(m);
                    },
                };
                let rest = match self.compile_exprs(cx, args) {
                    Ok(v) => v,
                    Err(m) => {
                        return Err(m);
                    },
                };
                let mut vals: Vec<Value> = vec![base];
                let mut i: usize = 0;
                assert(vals@ =~= seq![base] + rest@.take(0));
                while i < rest.len()
                    invariant
                        i <= rest@.len(),
                        vals@ =~= seq![base] + rest@.take(i as int),
                    decreases rest@.len() - i,
                {
                    vals.push(rest[i]);
                    i = i + 1;
                }
                assert(vals@ =~= seq![base] + rest@);
                Ok(self.compile_symbol(cx, index, &vals))
            },
            _ => Err(String::new()),
        }
    }

    /// An array literal: a fresh array, and a push of each element.
    fn compile_array(&mut self, cx: &Decls, es: &Vec<Expr>, ty: Option<Type>)
        -> (r: Result<Value, String>)
        ensures
            match r {
                Ok(v) => low_array(cx@, old(self)@, exprs_v(es@), ty)
                    == Ok::<_, Seq<char>>((final(self)@, v)),
                Err(m) => low_array(cx@, old(self)@, exprs_v(es@), ty) matches Err(e) && e == m@,
            },
            final(self)@.vars == old(self)@.vars,
            final(self)@.loops == old(self)@.loops,
        decreases *es, 2nat,
    {
        let elem = match elem_type(ty) {
            Some(elem) => elem,
            None => {
                return Err(String::from_str("codegen: array literal without array type"));
            },
        };
        let ghost given = exprs_v(es@);
        let kind: i64 = if elem.is_heap() {
            2
        } else {
            1
        };
        let room: i64 = if es.len() > 4 {
            es.len() as i64
        } else {
            4
        };
        let arr = self.call_rt2(
            Ty::Ptr,
            Rt::ArrNew,
            (Val::Int(kind), Ty::I64),
            (Val::Int(room), Ty::I64),
        );
        let ghost start = self@;
        let mut i: usize = 0;
        while i < es.len()
            invariant
                i <= es@.len(),
                given == exprs_v(es@),
                low_elems(cx@, start, arr, elem, given, i as nat) == Ok::<_, Seq<char>>(self@),
                low_array(cx@, old(self)@, given, ty) == (match low_elems(
                    cx@,
                    start,
                    arr,
                    elem,
                    given,
                    given.len(),
                ) {
                    Err(m) => Err(m),
                    Ok(g2) => Ok((with_temp(g2, arr), (arr, Ty::Ptr))),
                }),
                self@.vars == old(self)@.vars,
                self@.loops == old(self)@.loops,
            decreases es@.len() - i,
        {
            assert(given[i as int] == es@[i as int]@);
            assert(decreases_to!(*es => es@[i as int]));
            let v = match self.compile_expr(cx, &es[i]) {
                Ok(v) => v,
                Err(m) => {
                    proof {
                        lemma_elems_fault(cx@, start, arr, elem, given, (i + 1) as nat,
                            given.len());
                    }
                    return Err(m);
                },
            };
            self.compile_push(arr, v.0, elem);
            i = i + 1;
        }
        self.add_temp(arr);
        Ok((arr, Ty::Ptr))
    }


    // ----- statements ---------------------------------------------------------------------
    fn compile_let(&mut self, cx: &Decls, name: &str, ty: Option<Type>, value: &Expr)
        -> (r: Result<(), String>)
        requires
            old(self)@.vars.len() > 0,
        ensures
            match r {
                Ok(_) => low_let(cx@, old(self)@, name@, ty, value@)
                    == Ok::<_, Seq<char>>(final(self)@),
                Err(m) => low_let(cx@, old(self)@, name@, ty, value@) matches Err(e) && e == m@,
            },
            r is Ok ==> final(self)@.vars.len() == old(self)@.vars.len(),
            r is Ok ==> final(self)@.loops == old(self)@.loops,
    {
        proof {
            reveal(low_let);
        }
        let t = match ty {
            Some(t) => t,
            None => {
                return Err(cat3("codegen: `", name, "` has no type"));
            },
        };
        let v = match self.compile_expr(cx, value) {
            Ok(v) => v,
            Err(m) => {
                return Err(m);
            },
        };
        self.bind_var(name, t, v.0);
        if t.is_heap() {
            // Ownership of a fresh value moves into the binding.
            self.consume_temp(v.0);
        }
        self.flush_temps(0);
        Ok(())
    }

    fn compile_assign(&mut self, cx: &Decls, name: &str, value: &Expr) -> (r: Result<(), String>)
        ensures
            match r {
                Ok(_) => low_assign(cx@, old(self)@, name@, value@)
                    == Ok::<_, Seq<char>>(final(self)@),
                Err(m) => low_assign(cx@, old(self)@, name@, value@) matches Err(e) && e == m@,
            },
            r is Ok ==> final(self)@.vars.len() == old(self)@.vars.len(),
            r is Ok ==> final(self)@.loops == old(self)@.loops,
    {
        proof {
            reveal(low_assign);
        }
        let (slot, ty) = match self.lookup(name) {
            Some(found) => found,
            None => {
                return Err(cat3("codegen: unknown variable `", name, "`"));
            },
        };
        assert(value@.kind == kind_v(value.kind));
        let aliases = match &value.kind {
            ExprKind::Var(_) => true,
            _ => false,
        };
        let t = basic_type(ty);
        let v = match self.compile_expr(cx, value) {
            Ok(v) => v,
            Err(m) => {
                return Err(m);
            },
        };
        if ty.is_heap() {
            // ARC: evaluate first, retain if aliasing another binding,
            // then release the old value (order matters: `s = s + "x"`).
            if aliases {
                self.emit_retain(v.0);
            }
            let held = self.emit(Ins::Load(t, Val::Reg(slot)));
            self.emit(Ins::Store(t, v.0, Val::Reg(slot)));
            self.emit_release(held);
            self.consume_temp(v.0);
        } else {
            self.emit(Ins::Store(t, v.0, Val::Reg(slot)));
        }
        self.flush_temps(0);
        Ok(())
    }

    fn compile_index_assign(&mut self, cx: &Decls, target: &Expr, index: &Expr, value: &Expr)
        -> (r: Result<(), String>)
        ensures
            match r {
                Ok(_) => low_index_assign(cx@, old(self)@, target@, index@, value@)
                    == Ok::<_, Seq<char>>(final(self)@),
                Err(m) => low_index_assign(cx@, old(self)@, target@, index@, value@) matches Err(e)
                    && e == m@,
            },
            r is Ok ==> final(self)@.vars.len() == old(self)@.vars.len(),
            r is Ok ==> final(self)@.loops == old(self)@.loops,
    {
        proof {
            reveal(low_index_assign);
        }
        let elem = match elem_type(target.ty) {
            Some(elem) => elem,
            None => {
                return Err(String::from_str("codegen: index-assign target is not an array"));
            },
        };
        let arr = match self.compile_expr(cx, target) {
            Ok(v) => v,
            Err(m) => {
                return Err(m);
            },
        };
        let i = match self.compile_expr(cx, index) {
            Ok(v) => v,
            Err(m) => {
                return Err(m);
            },
        };
        let v = match self.compile_expr(cx, value) {
            Ok(v) => v,
            Err(m) => {
                return Err(m);
            },
        };
        let w = self.to_word(v.0, elem);
        // The runtime retains the new element / releases the old one.
        let args = vec![(arr.0, Ty::Ptr), (i.0, Ty::I64), (w, Ty::I64)];
        assert(args@ =~= seq![(arr.0, Ty::Ptr), (i.0, Ty::I64), (w, Ty::I64)]);
        self.call(Ty::Void, Callee::Runtime(Rt::ArrSet), &args);
        self.flush_temps(0);
        Ok(())
    }

    fn compile_field_assign(&mut self, cx: &Decls, target: &Expr, field: &str, value: &Expr)
        -> (r: Result<(), String>)
        ensures
            match r {
                Ok(_) => low_field_assign(cx@, old(self)@, target@, field@, value@)
                    == Ok::<_, Seq<char>>(final(self)@),
                Err(m) => low_field_assign(cx@, old(self)@, target@, field@, value@) matches Err(e)
                    && e == m@,
            },
            r is Ok ==> final(self)@.vars.len() == old(self)@.vars.len(),
            r is Ok ==> final(self)@.loops == old(self)@.loops,
    {
        proof {
            reveal(low_field_assign);
        }
        let (index, ty) = match cx.field_place(target.ty, field) {
            Some(place) => place,
            None => {
                return Err(cat3("codegen: no field `", field, "`"));
            },
        };
        let base = match self.compile_expr(cx, target) {
            Ok(v) => v,
            Err(m) => {
                return Err(m);
            },
        };
        let v = match self.compile_expr(cx, value) {
            Ok(v) => v,
            Err(m) => {
                return Err(m);
            },
        };
        let slot = self.emit(Ins::Gep(Ty::I64, base.0, Val::Int(index as i64)));
        if ty.is_heap() {
            // The new value is retained before the old one is released, so
            // `p.x = p.x` is safe.
            self.emit_retain(v.0);
            let held = self.emit(Ins::Load(Ty::Ptr, slot));
            self.emit(Ins::Store(Ty::Ptr, v.0, slot));
            self.emit_release(held);
        } else {
            self.emit(Ins::Store(basic_type(ty), v.0, slot));
        }
        self.flush_temps(0);
        Ok(())
    }

    /// A bare expression; a unit call has no value.
    fn compile_expr_or_unit(&mut self, cx: &Decls, e: &Expr) -> (r: Result<(), String>)
        ensures
            match r {
                Ok(_) => low_bare(cx@, old(self)@, e@) == Ok::<_, Seq<char>>(final(self)@),
                Err(m) => low_bare(cx@, old(self)@, e@) matches Err(e) && e == m@,
            },
            r is Ok ==> final(self)@.vars.len() == old(self)@.vars.len(),
            r is Ok ==> final(self)@.loops == old(self)@.loops,
    {
        proof {
            reveal(low_bare);
        }
        assert(e@.kind == kind_v(e.kind));
        let unit = match e.ty {
            Some(ty) => ty == Type::Unit,
            None => false,
        };
        match &e.kind {
            ExprKind::Call(name, args) if unit => {
                match self.compile_call(cx, name.as_str(), args, e.span.line) {
                    Ok(_) => {},
                    Err(m) => {
                        return Err(m);
                    },
                }
            },
            ExprKind::MethodCall(_, _, _) if unit => {
                match self.compile_method(cx, e) {
                    Ok(_) => {},
                    Err(m) => {
                        return Err(m);
                    },
                }
            },
            _ => {
                match self.compile_expr(cx, e) {
                    Ok(_) => {},
                    Err(m) => {
                        return Err(m);
                    },
                }
            },
        }
        self.flush_temps(0);
        Ok(())
    }

    fn compile_return(&mut self, cx: &Decls, value: &Option<Expr>) -> (r: Result<(), String>)
        ensures
            match r {
                Ok(_) => low_return(cx@, old(self)@, opt_expr_v(*value))
                    == Ok::<_, Seq<char>>(final(self)@),
                Err(m) => low_return(cx@, old(self)@, opt_expr_v(*value)) matches Err(e) && e == m@,
            },
            r is Ok ==> final(self)@.vars.len() == old(self)@.vars.len(),
            r is Ok ==> final(self)@.loops == old(self)@.loops,
    {
        proof {
            reveal(low_return);
        }
        match value {
            Some(e) => {
                let v = match self.compile_expr(cx, e) {
                    Ok(v) => v,
                    Err(m) => {
                        return Err(m);
                    },
                };
                if let Some(t) = e.ty {
                    if t.is_heap() {
                        // The caller owns the result; don't release it here.
                        self.consume_temp(v.0);
                    }
                }
                self.flush_temps(0);
                self.emit(Ins::Ret(v.1, v.0));
            },
            None => {
                self.flush_temps(0);
                self.emit(Ins::RetVoid);
            },
        }
        Ok(())
    }

    /// A retain or release of what a variable holds.
    fn compile_count(&mut self, name: &str, up: bool) -> (r: Result<(), String>)
        ensures
            match r {
                Ok(_) => low_count(old(self)@, name@, up) == Ok::<_, Seq<char>>(final(self)@),
                Err(m) => low_count(old(self)@, name@, up) matches Err(e) && e == m@,
            },
            r is Ok ==> final(self)@.vars.len() == old(self)@.vars.len(),
            r is Ok ==> final(self)@.loops == old(self)@.loops,
    {
        proof {
            reveal(low_count);
        }
        let (base, hidden) = unprime(name);
        match self.lookup_hidden(base.as_str(), hidden) {
            Some((slot, ty)) => {
                let v = self.emit(Ins::Load(basic_type(ty), Val::Reg(slot)));
                if up {
                    self.emit_retain(v);
                } else {
                    self.emit_release(v);
                }
                Ok(())
            },
            None => Err(cat3("codegen: unknown variable `", name, "`")),
        }
    }

    /// A branch to the end of the innermost loop, or to its next round.
    fn compile_jump(&mut self, out: bool) -> (r: Result<(), String>)
        ensures
            match r {
                Ok(_) => low_jump(old(self)@, out) == Ok::<_, Seq<char>>(final(self)@),
                Err(m) => low_jump(old(self)@, out) matches Err(e) && e == m@,
            },
            r is Ok ==> final(self)@.vars.len() == old(self)@.vars.len(),
            r is Ok ==> final(self)@.loops == old(self)@.loops,
    {
        proof {
            reveal(low_jump);
        }
        let targets = match self.innermost() {
            Some(targets) => targets,
            None => {
                return Err(
                    String::from_str(
                        if out {
                            "codegen: break outside loop"
                        } else {
                            "codegen: continue outside loop"
                        },
                    ),
                );
            },
        };
        let to = if out {
            targets.1
        } else {
            targets.0
        };
        self.emit(Ins::Br(to));
        Ok(())
    }

    /// A condition, whose temporaries are released before the branch on it.
    fn compile_cond(&mut self, cx: &Decls, e: &Expr) -> (r: Result<Val, String>)
        ensures
            match r {
                Ok(v) => low_cond(cx@, old(self)@, e@) == Ok::<_, Seq<char>>((final(self)@, v)),
                Err(m) => low_cond(cx@, old(self)@, e@) matches Err(e) && e == m@,
            },
            r is Ok ==> final(self)@.vars.len() == old(self)@.vars.len(),
            r is Ok ==> final(self)@.loops == old(self)@.loops,
    {
        proof {
            reveal(low_cond);
        }
        let v = match self.compile_expr(cx, e) {
            Ok(v) => v,
            Err(m) => {
                return Err(m);
            },
        };
        self.flush_temps(0);
        Ok(v.0)
    }

    fn compile_stmt(&mut self, cx: &Decls, stmt: &Stmt) -> (r: Result<(), String>)
        requires
            old(self)@.vars.len() > 0,
        ensures
            match r {
                Ok(_) => low_stmt(cx@, old(self)@, stmt@) == Ok::<_, Seq<char>>(final(self)@),
                Err(m) => low_stmt(cx@, old(self)@, stmt@) matches Err(e) && e == m@,
            },
            r is Ok ==> final(self)@.vars.len() == old(self)@.vars.len(),
            r is Ok ==> final(self)@.loops == old(self)@.loops,
        decreases *stmt, 1nat,
    {
        match stmt {
            Stmt::Let { name, ty, value, .. } => self.compile_let(cx, name.as_str(), *ty, value),
            Stmt::Assign { name, value, .. } => self.compile_assign(cx, name.as_str(), value),
            Stmt::IndexAssign { target, index, value, .. } => self.compile_index_assign(
                cx,
                target,
                index,
                value,
            ),
            Stmt::FieldAssign { target, field, value, .. } => self.compile_field_assign(
                cx,
                target,
                field.as_str(),
                value,
            ),
            Stmt::Expr(e) => self.compile_expr_or_unit(cx, e),
            Stmt::Return { value, .. } => self.compile_return(cx, value),
            Stmt::If { .. } => self.compile_if(cx, stmt),
            Stmt::While { .. } => self.compile_while(cx, stmt),
            Stmt::For { .. } => self.compile_for(cx, stmt),
            Stmt::ForEach { .. } => self.compile_foreach(cx, stmt),
            Stmt::Match { .. } => self.compile_match(cx, stmt),
            Stmt::Break { .. } => self.compile_jump(true),
            Stmt::Continue { .. } => self.compile_jump(false),
            Stmt::Retain(name) => self.compile_count(name.as_str(), true),
            Stmt::Release(name) => self.compile_count(name.as_str(), false),
        }
    }

    /// A block, in a scope of its own; what follows a return, break or continue
    /// is dead code and is left out.
    fn compile_block(&mut self, cx: &Decls, block: &Vec<Stmt>) -> (r: Result<(), String>)
        ensures
            match r {
                Ok(_) => low_block(cx@, old(self)@, block_v(block@))
                    == Ok::<_, Seq<char>>(final(self)@),
                Err(m) => low_block(cx@, old(self)@, block_v(block@)) matches Err(e) && e == m@,
            },
            r is Ok ==> final(self)@.vars.len() == old(self)@.vars.len(),
            r is Ok ==> final(self)@.loops == old(self)@.loops,
        decreases *block, 1nat,
    {
        let ghost given = block_v(block@);
        self.push_scope();
        let ghost start = self@;
        let mut i: usize = 0;
        while i < block.len() && self.is_open()
            invariant
                i <= block@.len(),
                given == block_v(block@),
                start == push_scope(old(self)@),
                low_stmts(cx@, start, given, 0) == low_stmts(cx@, self@, given, i as int),
                self@.vars.len() == old(self)@.vars.len() + 1,
                self@.loops == old(self)@.loops,
            decreases block@.len() - i,
        {
            assert(given[i as int] == block@[i as int]@);
            assert(decreases_to!(*block => block@[i as int]));
            match self.compile_stmt(cx, &block[i]) {
                Ok(_) => {},
                Err(m) => {
                    return Err(m);
                },
            }
            i = i + 1;
        }
        self.pop_scope();
        Ok(())
    }

    fn compile_if(&mut self, cx: &Decls, stmt: &Stmt) -> (r: Result<(), String>)
        requires
            old(self)@.vars.len() > 0,
            *stmt is If,
        ensures
            match r {
                Ok(_) => low_if(cx@, old(self)@, stmt@) == Ok::<_, Seq<char>>(final(self)@),
                Err(m) => low_if(cx@, old(self)@, stmt@) matches Err(e) && e == m@,
            },
            r is Ok ==> final(self)@.vars.len() == old(self)@.vars.len(),
            r is Ok ==> final(self)@.loops == old(self)@.loops,
        decreases *stmt, 0nat,
    {
        match stmt {
            Stmt::If { cond, then_block, else_block } => {
                let c = match self.compile_cond(cx, cond) {
                    Ok(v) => v,
                    Err(m) => {
                        return Err(m);
                    },
                };
                let yes = self.label(Mark::Then);
                let end = self.label(Mark::EndIf);
                let no = match else_block {
                    Some(_) => self.label(Mark::Else),
                    None => end,
                };
                self.emit(Ins::CondBr(c, yes, no));
                self.begin(yes);
                match self.compile_block(cx, then_block) {
                    Ok(_) => {},
                    Err(m) => {
                        return Err(m);
                    },
                }
                self.branch_if_open(end);
                if let Some(b) = else_block {
                    self.begin(no);
                    match self.compile_block(cx, b) {
                        Ok(_) => {},
                        Err(m) => {
                            return Err(m);
                        },
                    }
                    self.branch_if_open(end);
                }
                self.begin(end);
                Ok(())
            },
            _ => Ok(()),
        }
    }

    /// The body of a loop: `continue` goes to `next`, `break` to `end`, and the
    /// end of the body to `next`.
    fn compile_body(&mut self, cx: &Decls, body: &Vec<Stmt>, next: Label, end: Label)
        -> (r: Result<(), String>)
        requires
            old(self)@.vars.len() > 0,
        ensures
            match r {
                Ok(_) => low_body(cx@, old(self)@, block_v(body@), next, end)
                    == Ok::<_, Seq<char>>(final(self)@),
                Err(m) => low_body(cx@, old(self)@, block_v(body@), next, end) matches Err(e)
                    && e == m@,
            },
            r is Ok ==> final(self)@.vars.len() == old(self)@.vars.len(),
            r is Ok ==> final(self)@.loops == old(self)@.loops,
        decreases *body, 2nat,
    {
        self.push_loop(next, end);
        match self.compile_block(cx, body) {
            Ok(_) => {},
            Err(m) => {
                return Err(m);
            },
        }
        self.pop_loop();
        assert(old(self)@.loops.push((next, end)).drop_last() =~= old(self)@.loops);
        self.branch_if_open(next);
        Ok(())
    }

    fn compile_while(&mut self, cx: &Decls, stmt: &Stmt) -> (r: Result<(), String>)
        requires
            old(self)@.vars.len() > 0,
            *stmt is While,
        ensures
            match r {
                Ok(_) => low_while(cx@, old(self)@, stmt@) == Ok::<_, Seq<char>>(final(self)@),
                Err(m) => low_while(cx@, old(self)@, stmt@) matches Err(e) && e == m@,
            },
            r is Ok ==> final(self)@.vars.len() == old(self)@.vars.len(),
            r is Ok ==> final(self)@.loops == old(self)@.loops,
        decreases *stmt, 0nat,
    {
        match stmt {
            Stmt::While { cond, body } => {
                let test = self.label(Mark::LoopCond);
                let inside = self.label(Mark::LoopBody);
                let end = self.label(Mark::LoopEnd);
                self.emit(Ins::Br(test));
                self.begin(test);
                let c = match self.compile_cond(cx, cond) {
                    Ok(v) => v,
                    Err(m) => {
                        return Err(m);
                    },
                };
                self.emit(Ins::CondBr(c, inside, end));
                self.begin(inside);
                match self.compile_body(cx, body, test, end) {
                    Ok(_) => {},
                    Err(m) => {
                        return Err(m);
                    },
                }
                self.begin(end);
                Ok(())
            },
            _ => Ok(()),
        }
    }

    /// Advances the counter in a slot by one, and branches to the test.
    fn advance(&mut self, slot: usize, test: Label)
        ensures
            final(self)@ == low_advance(old(self)@, slot, test),
            final(self)@.vars == old(self)@.vars,
            final(self)@.vars.len() == old(self)@.vars.len(),
            final(self)@.loops == old(self)@.loops,
    {
        proof {
            reveal(low_advance);
        }
        let cur = self.emit(Ins::Load(Ty::I64, Val::Reg(slot)));
        let next = self.emit(Ins::Bin(Op::Add, Ty::I64, cur, Val::Int(1)));
        self.emit(Ins::Store(Ty::I64, next, Val::Reg(slot)));
        self.emit(Ins::Br(test));
    }

    fn compile_for(&mut self, cx: &Decls, stmt: &Stmt) -> (r: Result<(), String>)
        requires
            old(self)@.vars.len() > 0,
            *stmt is For,
        ensures
            match r {
                Ok(_) => low_for(cx@, old(self)@, stmt@) == Ok::<_, Seq<char>>(final(self)@),
                Err(m) => low_for(cx@, old(self)@, stmt@) matches Err(e) && e == m@,
            },
            r is Ok ==> final(self)@.vars.len() == old(self)@.vars.len(),
            r is Ok ==> final(self)@.loops == old(self)@.loops,
        decreases *stmt, 0nat,
    {
        match stmt {
            Stmt::For { var, start, end, body, .. } => {
                // Bounds are evaluated once, before the loop.
                let from = match self.compile_expr(cx, start) {
                    Ok(v) => v,
                    Err(m) => {
                        return Err(m);
                    },
                };
                let to = match self.compile_expr(cx, end) {
                    Ok(v) => v,
                    Err(m) => {
                        return Err(m);
                    },
                };
                self.flush_temps(0);
                self.push_scope();
                let slot = self.bind_var(var.as_str(), Type::Int, from.0);
                let test = self.label(Mark::ForCond);
                let inside = self.label(Mark::ForBody);
                let next = self.label(Mark::ForInc);
                let out = self.label(Mark::ForEnd);
                self.emit(Ins::Br(test));
                self.begin(test);
                let cur = self.emit(Ins::Load(Ty::I64, Val::Reg(slot)));
                let more = self.emit(Ins::Cmp(Pred::Slt, Ty::I64, cur, to.0));
                self.emit(Ins::CondBr(more, inside, out));
                // `continue` must run the increment, so it targets that block.
                self.begin(inside);
                match self.compile_body(cx, body, next, out) {
                    Ok(_) => {},
                    Err(m) => {
                        return Err(m);
                    },
                }
                self.begin(next);
                self.advance(slot, test);
                self.pop_scope();
                self.begin(out);
                Ok(())
            },
            _ => Ok(()),
        }
    }

    /// A fresh value must outlive the statement: it is pulled out of the
    /// temporaries, and the others are released.
    fn keep_alive(&mut self, checkpoint: usize, v: Val) -> (fresh: bool)
        ensures
            (final(self)@, fresh) == keep_alive(old(self)@, checkpoint as nat, v),
            final(self)@.vars == old(self)@.vars,
            final(self)@.vars.len() == old(self)@.vars.len(),
            final(self)@.loops == old(self)@.loops,
    {
        proof {
            reveal(keep_alive);
        }
        let fresh = match self.last_temp() {
            Some(last) => last == v,
            None => false,
        };
        if fresh {
            self.consume_temp(v);
        }
        self.flush_temps(checkpoint);
        fresh
    }

    /// Slots for the position and the variable of a loop over an array.
    fn foreach_slots(&mut self, var: &str, elem: Type) -> (slots: (usize, usize))
        ensures
            final(self)@ == foreach_slots(old(self)@, var@, elem),
            slots.0 == old(self)@.code.len() as usize,
            slots.1 == (old(self)@.code.len() + 2) as usize,
            final(self)@.vars.len() == old(self)@.vars.len() + 1,
            final(self)@.loops == old(self)@.loops,
    {
        proof {
            reveal(foreach_slots);
        }
        let at: usize = self.position();
        self.emit(Ins::Alloca(Ty::I64));
        self.emit(Ins::Store(Ty::I64, Val::Int(0), Val::Reg(at)));
        let slot: usize = self.position();
        self.emit(Ins::Alloca(basic_type(elem)));
        self.push_scope();
        self.declare(var, slot, elem);
        (at, slot)
    }

    /// Holds an array that the loop over it owns; whether it does.
    fn hold(&mut self, var: &str, iterable: &Expr, arr: Val) -> (owned: bool)
        requires
            old(self)@.vars.len() > 0,
            iterable.ty is Some,
        ensures
            final(self)@ == low_hold(old(self)@, var@, iterable@, arr),
            owned == owns_iterable(iterable@),
            final(self)@.vars.len() == old(self)@.vars.len(),
            final(self)@.loops == old(self)@.loops,
    {
        proof {
            reveal(low_hold);
        }
        assert(iterable@.kind == kind_v(iterable.kind));
        if let ExprKind::Var(_) = &iterable.kind {
            return false;
        }
        match iterable.ty {
            Some(ty) => {
                let name = cat2("in ", var);
                self.bind_var(name.as_str(), ty, arr);
                true
            },
            None => false,
        }
    }

    fn foreach_test(&mut self, arr: Val, at: usize, inside: Label, out: Label)
        ensures
            final(self)@ == foreach_test(old(self)@, arr, at, inside, out),
            final(self)@.vars.len() == old(self)@.vars.len(),
            final(self)@.loops == old(self)@.loops,
    {
        proof {
            reveal(foreach_test);
        }
        let i = self.emit(Ins::Load(Ty::I64, Val::Reg(at)));
        // Reload the length every iteration: the body may push.
        let n = self.emit(Ins::Load(Ty::I64, arr));
        let more = self.emit(Ins::Cmp(Pred::Slt, Ty::I64, i, n));
        self.emit(Ins::CondBr(more, inside, out));
    }

    fn foreach_take(&mut self, arr: Val, at: usize, slot: usize, elem: Type)
        ensures
            final(self)@ == foreach_take(old(self)@, arr, at, slot, elem),
            final(self)@.vars.len() == old(self)@.vars.len(),
            final(self)@.loops == old(self)@.loops,
    {
        proof {
            reveal(foreach_take);
        }
        let i = self.emit(Ins::Load(Ty::I64, Val::Reg(at)));
        let raw = self.call_rt2(Ty::I64, Rt::ArrGet, (arr, Ty::Ptr), (i, Ty::I64));
        let v = self.from_word(raw, elem);
        self.emit(Ins::Store(basic_type(elem), v, Val::Reg(slot)));
    }

    fn compile_foreach(&mut self, cx: &Decls, stmt: &Stmt) -> (r: Result<(), String>)
        requires
            old(self)@.vars.len() > 0,
            *stmt is ForEach,
        ensures
            match r {
                Ok(_) => low_foreach(cx@, old(self)@, stmt@) == Ok::<_, Seq<char>>(final(self)@),
                Err(m) => low_foreach(cx@, old(self)@, stmt@) matches Err(e) && e == m@,
            },
            r is Ok ==> final(self)@.vars.len() == old(self)@.vars.len(),
            r is Ok ==> final(self)@.loops == old(self)@.loops,
        decreases *stmt, 0nat,
    {
        match stmt {
            Stmt::ForEach { var, iterable, body, .. } => {
                let elem = match elem_type(iterable.ty) {
                    Some(elem) => elem,
                    None => {
                        return Err(String::from_str("codegen: for-in over a non-array"));
                    },
                };
                // A fresh iterable (literal, call result) must stay alive for
                // the whole loop; it is released after the loop instead.
                let checkpoint: usize = self.temp_count();
                let arr = match self.compile_expr(cx, iterable) {
                    Ok(v) => v,
                    Err(m) => {
                        return Err(m);
                    },
                };
                self.keep_alive(checkpoint, arr.0);
                let (at, slot) = self.foreach_slots(var.as_str(), elem);
                let owned = self.hold(var.as_str(), iterable, arr.0);
                let test = self.label(Mark::ForeachCond);
                let inside = self.label(Mark::ForeachBody);
                let next = self.label(Mark::ForeachInc);
                let out = self.label(Mark::ForeachEnd);
                self.emit(Ins::Br(test));
                self.begin(test);
                self.foreach_test(arr.0, at, inside, out);
                self.begin(inside);
                self.foreach_take(arr.0, at, slot, elem);
                match self.compile_body(cx, body, next, out) {
                    Ok(_) => {},
                    Err(m) => {
                        return Err(m);
                    },
                }
                self.begin(next);
                self.advance(at, test);
                self.pop_scope();
                self.begin(out);
                if owned {
                    self.emit_release(arr.0);
                }
                Ok(())
            },
            _ => Ok(()),
        }
    }

    /// Binds the payload values of a variant to names; a heap value arrives
    /// retained, and the arm releases it.
    fn bind_payload(&mut self, base: Val, names: &Vec<String>, types: &Vec<Type>)
        requires
            old(self)@.vars.len() > 0,
            names@.len() == types@.len(),
        ensures
            final(self)@ == bind_payload(
                old(self)@,
                base,
                names_v(names@),
                types@,
                names@.len(),
            ),
            final(self)@.vars.len() == old(self)@.vars.len(),
            final(self)@.loops == old(self)@.loops,
    {
        let mut i: usize = 0;
        while i < names.len()
            invariant
                i <= names@.len() == types@.len(),
                self@ == bind_payload(old(self)@, base, names_v(names@), types@, i as nat),
                self@.vars.len() == old(self)@.vars.len(),
                self@.vars.len() > 0,
                self@.loops == old(self)@.loops,
            decreases names@.len() - i,
        {
            let ty: Type = types[i];
            let word: i64 = (i + 1) as i64;
            let slot = self.emit(Ins::Gep(Ty::I64, base, Val::Int(word)));
            let v = self.emit(Ins::Load(basic_type(ty), slot));
            if ty.is_heap() {
                self.emit_retain(v);
            }
            self.bind_var(names[i].as_str(), ty, v);
            i = i + 1;
        }
    }

    /// The test for an arm: whether the tag is that of its variant. Where the
    /// next test goes.
    fn arm_test(&mut self, tag: Val, vid: Option<usize>) -> (next: Label)
        ensures
            (final(self)@, next) == arm_test(
                old(self)@,
                tag,
                match vid {
                    Some(v) => Some(v as int),
                    None => None,
                },
            ),
            final(self)@.vars.len() == old(self)@.vars.len(),
            final(self)@.loops == old(self)@.loops,
    {
        proof {
            reveal(arm_test);
        }
        match vid {
            None => {
                let here = self.label(Mark::Arm);
                let next = self.label(Mark::NextArm);
                self.emit(Ins::Br(here));
                self.begin(here);
                next
            },
            Some(v) => {
                let hit = self.emit(Ins::Cmp(Pred::Eq, Ty::I64, tag, Val::Int(v as i64)));
                let here = self.label(Mark::Arm);
                let next = self.label(Mark::NextArm);
                self.emit(Ins::CondBr(hit, here, next));
                self.begin(here);
                next
            },
        }
    }

    /// One arm: the test, the bindings, the body. A fresh scrutinee is released
    /// once the bindings hold what they need. Whether the arm falls through.
    fn compile_arm(
        &mut self,
        cx: &Decls,
        id: u32,
        arm: &MatchArm,
        base: Val,
        tag: Val,
        fresh: bool,
        end: Label,
    ) -> (r: Result<bool, String>)
        requires
            old(self)@.vars.len() > 0,
            id < cx.enums@.len(),
        ensures
            match r {
                Ok(falls) => low_arm(
                    cx@,
                    old(self)@,
                    cx@.enums[id as int],
                    arm@,
                    base,
                    tag,
                    fresh,
                    end,
                ) == Ok::<_, Seq<char>>((final(self)@, falls)),
                Err(m) => low_arm(
                    cx@,
                    old(self)@,
                    cx@.enums[id as int],
                    arm@,
                    base,
                    tag,
                    fresh,
                    end,
                ) matches Err(e) && e == m@,
            },
            r is Ok ==> final(self)@.vars.len() == old(self)@.vars.len(),
            r is Ok ==> final(self)@.loops == old(self)@.loops,
        decreases *arm, 0nat,
    {
        proof {
            reveal(pattern_place);
        }
        let def = &cx.enums[id as usize];
        assert(cx@.enums[id as int] == def@);
        match &arm.pattern {
            Pattern::Wildcard => {
                let next = self.arm_test(tag, None);
                self.push_scope();
                if fresh {
                    self.emit_release(base);
                }
                match self.compile_block(cx, &arm.body) {
                    Ok(_) => {},
                    Err(m) => {
                        return Err(m);
                    },
                }
                let falls = self.is_open();
                self.pop_scope();
                self.branch_if_open(end);
                self.begin(next);
                Ok(falls)
            },
            Pattern::Variant { name, bindings, types: _ } => {
                let v: usize = match def.variant(name.as_str()) {
                    Some(v) => v,
                    None => {
                        return Err(cat3("codegen: no variant `", name.as_str(), "`"));
                    },
                };
                assert(def@.variants[v as int] == def.variants@[v as int]@);
                if bindings.len() != def.variants[v].fields.len() {
                    return Err(wrong_count(name.as_str()));
                }
                let next = self.arm_test(tag, Some(v));
                self.push_scope();
                self.bind_payload(base, bindings, &def.variants[v].fields);
                if fresh {
                    self.emit_release(base);
                }
                match self.compile_block(cx, &arm.body) {
                    Ok(_) => {},
                    Err(m) => {
                        return Err(m);
                    },
                }
                let falls = self.is_open();
                self.pop_scope();
                self.branch_if_open(end);
                self.begin(next);
                Ok(falls)
            },
        }
    }

    /// The arms of a match, in order, and whether any falls through.
    fn compile_arms(
        &mut self,
        cx: &Decls,
        id: u32,
        arms: &Vec<MatchArm>,
        base: Val,
        tag: Val,
        fresh: bool,
        end: Label,
    ) -> (r: Result<bool, String>)
        requires
            old(self)@.vars.len() > 0,
            id < cx.enums@.len(),
        ensures
            match r {
                Ok(falls) => low_arms(
                    cx@,
                    old(self)@,
                    cx@.enums[id as int],
                    arms_v(arms@),
                    0,
                    base,
                    tag,
                    fresh,
                    end,
                    false,
                ) == Ok::<_, Seq<char>>((final(self)@, falls)),
                Err(m) => low_arms(
                    cx@,
                    old(self)@,
                    cx@.enums[id as int],
                    arms_v(arms@),
                    0,
                    base,
                    tag,
                    fresh,
                    end,
                    false,
                ) matches Err(e) && e == m@,
            },
            r is Ok ==> final(self)@.vars.len() == old(self)@.vars.len(),
            r is Ok ==> final(self)@.loops == old(self)@.loops,
        decreases *arms, 1nat,
    {
        let ghost given = arms_v(arms@);
        let ghost def = cx@.enums[id as int];
        let mut falls = false;
        let mut i: usize = 0;
        while i < arms.len()
            invariant
                i <= arms@.len(),
                id < cx.enums@.len(),
                given == arms_v(arms@),
                def == cx@.enums[id as int],
                self@.vars.len() == old(self)@.vars.len(),
                self@.vars.len() > 0,
                self@.loops == old(self)@.loops,
                low_arms(cx@, old(self)@, def, given, 0, base, tag, fresh, end, false) == low_arms(
                    cx@,
                    self@,
                    def,
                    given,
                    i as int,
                    base,
                    tag,
                    fresh,
                    end,
                    falls,
                ),
            decreases arms@.len() - i,
        {
            assert(given[i as int] == arms@[i as int]@);
            assert(decreases_to!(*arms => arms@[i as int]));
            let open = match self.compile_arm(cx, id, &arms[i], base, tag, fresh, end) {
                Ok(v) => v,
                Err(m) => {
                    return Err(m);
                },
            };
            falls = falls || open;
            i = i + 1;
        }
        Ok(falls)
    }

    fn compile_match(&mut self, cx: &Decls, stmt: &Stmt) -> (r: Result<(), String>)
        requires
            old(self)@.vars.len() > 0,
            *stmt is Match,
        ensures
            match r {
                Ok(_) => low_match(cx@, old(self)@, stmt@) == Ok::<_, Seq<char>>(final(self)@),
                Err(m) => low_match(cx@, old(self)@, stmt@) matches Err(e) && e == m@,
            },
            r is Ok ==> final(self)@.vars.len() == old(self)@.vars.len(),
            r is Ok ==> final(self)@.loops == old(self)@.loops,
        decreases *stmt, 0nat,
    {
        match stmt {
            Stmt::Match { scrutinee, arms, .. } => {
                let id = match scrutinee.ty {
                    Some(Type::Enum(id)) => id,
                    _ => {
                        return Err(String::from_str("codegen: match on a non-enum"));
                    },
                };
                if id as usize >= cx.enums.len() {
                    return Err(String::from_str("codegen: match on a non-enum"));
                }
                let checkpoint: usize = self.temp_count();
                let base = match self.compile_expr(cx, scrutinee) {
                    Ok(v) => v,
                    Err(m) => {
                        return Err(m);
                    },
                };
                let fresh = self.keep_alive(checkpoint, base.0);
                let end = self.label(Mark::MatchEnd);
                let tag = self.emit(Ins::Load(Ty::I64, base.0));
                let falls = match self.compile_arms(cx, id, arms, base.0, tag, fresh, end) {
                    Ok(v) => v,
                    Err(m) => {
                        return Err(m);
                    },
                };
                // A match is exhaustive: control never passes the last test.
                self.emit(Ins::Unreachable);
                if falls {
                    self.begin(end);
                }
                Ok(())
            },
            _ => Ok(()),
        }
    }
}

/// A fault in the first `k` expressions is a fault of them all.
proof fn lemma_exprs_fault(cx: Cx, g: Gen, es: Seq<ExprV>, k: nat, n: nat)
    requires
        k <= n <= es.len(),
        low_exprs(cx, g, es, k) is Err,
    ensures
        low_exprs(cx, g, es, n) == low_exprs(cx, g, es, k),
    decreases n,
{
    if k < n {
        lemma_exprs_fault(cx, g, es, k, (n - 1) as nat);
    }
}

/// A fault in the first `k` elements is a fault of them all.
proof fn lemma_elems_fault(cx: Cx, g: Gen, arr: Val, elem: Type, es: Seq<ExprV>, k: nat, n: nat)
    requires
        k <= n <= es.len(),
        low_elems(cx, g, arr, elem, es, k) is Err,
    ensures
        low_elems(cx, g, arr, elem, es, n) == low_elems(cx, g, arr, elem, es, k),
    decreases n,
{
    if k < n {
        lemma_elems_fault(cx, g, arr, elem, es, k, (n - 1) as nat);
    }
}

/// The instruction for an operation on integers or bools.
fn int_ins(op: BinOp, ty: Ty, l: Val, r: Val) -> (i: Option<(Ins, Ty)>)
    ensures
        i == int_op(op, ty, l, r),
{
    match op {
        BinOp::Add => Some((Ins::Bin(Op::Add, ty, l, r), ty)),
        BinOp::Sub => Some((Ins::Bin(Op::Sub, ty, l, r), ty)),
        BinOp::Mul => Some((Ins::Bin(Op::Mul, ty, l, r), ty)),
        BinOp::Div => Some((Ins::Bin(Op::SDiv, ty, l, r), ty)),
        BinOp::Rem => Some((Ins::Bin(Op::SRem, ty, l, r), ty)),
        BinOp::Eq => Some((Ins::Cmp(Pred::Eq, ty, l, r), Ty::I1)),
        BinOp::Ne => Some((Ins::Cmp(Pred::Ne, ty, l, r), Ty::I1)),
        BinOp::Lt => Some((Ins::Cmp(Pred::Slt, ty, l, r), Ty::I1)),
        BinOp::Le => Some((Ins::Cmp(Pred::Sle, ty, l, r), Ty::I1)),
        BinOp::Gt => Some((Ins::Cmp(Pred::Sgt, ty, l, r), Ty::I1)),
        BinOp::Ge => Some((Ins::Cmp(Pred::Sge, ty, l, r), Ty::I1)),
        BinOp::And | BinOp::Or => None,
    }
}

/// The instruction for an operation on floats.
fn float_ins(op: BinOp, l: Val, r: Val) -> (i: Option<(Ins, Ty)>)
    ensures
        i == float_op(op, l, r),
{
    match op {
        BinOp::Add => Some((Ins::Bin(Op::FAdd, Ty::F64, l, r), Ty::F64)),
        BinOp::Sub => Some((Ins::Bin(Op::FSub, Ty::F64, l, r), Ty::F64)),
        BinOp::Mul => Some((Ins::Bin(Op::FMul, Ty::F64, l, r), Ty::F64)),
        BinOp::Div => Some((Ins::Bin(Op::FDiv, Ty::F64, l, r), Ty::F64)),
        BinOp::Rem => Some((Ins::Bin(Op::FRem, Ty::F64, l, r), Ty::F64)),
        BinOp::Eq => Some((Ins::Cmp(Pred::FEq, Ty::F64, l, r), Ty::I1)),
        BinOp::Ne => Some((Ins::Cmp(Pred::FNe, Ty::F64, l, r), Ty::I1)),
        BinOp::Lt => Some((Ins::Cmp(Pred::FLt, Ty::F64, l, r), Ty::I1)),
        BinOp::Le => Some((Ins::Cmp(Pred::FLe, Ty::F64, l, r), Ty::I1)),
        BinOp::Gt => Some((Ins::Cmp(Pred::FGt, Ty::F64, l, r), Ty::I1)),
        BinOp::Ge => Some((Ins::Cmp(Pred::FGe, Ty::F64, l, r), Ty::I1)),
        BinOp::And | BinOp::Or => None,
    }
}

fn returns_nothing(name: &str, line: usize) -> (s: String)
    ensures
        s@ == no_value(name@, line),
{
    cat5("codegen: `", name, "` returns no value (line ", dec_usize(line).as_str(), ")")
}

fn wrong_count(name: &str) -> (s: String)
    ensures
        s@ == bad_count(name@),
{
    cat3("codegen: wrong number of arguments for `", name, "`")
}

// ----- functions -----------------------------------------------------------------------------
impl Lowerer {
    /// The state at the start of a function.
    fn start(lits: Vec<String>, floats: Vec<String>) -> (g: Self)
        ensures
            g@ == at_entry(names_v(lits@), names_v(floats@)),
    {
        proof {
            reveal(Lowerer::view);
        }
        let here = Label { mark: Mark::Entry, at: 0 };
        let mut vars: Vec<StringHashMap<(usize, Type)>> = Vec::new();
        vars.push(StringHashMap::new());
        let g = Lowerer {
            code: vec![Ins::Label(here)],
            vars,
            loops: Vec::new(),
            temps: Vec::new(),
            lits,
            floats,
            here,
            open: true,
        };
        assert(g@ =~= at_entry(names_v(lits@), names_v(floats@)));
        g
    }

    /// The code, and the literals to go on with.
    fn finish(self) -> (r: (Vec<Ins>, Vec<String>, Vec<String>))
        ensures
            r.0@ == self@.code,
            names_v(r.1@) == self@.lits,
            names_v(r.2@) == self@.floats,
    {
        proof {
            reveal(Lowerer::view);
        }
        (self.code, self.lits, self.floats)
    }

    /// Puts parameters into stack slots, the first of them being number `at`.
    fn bind_params(&mut self, params: &Vec<Param>, at: usize, Ghost(all): Ghost<Seq<ParamV>>)
        requires
            old(self)@.vars.len() > 0,
            at <= 1,
            at + params@.len() == all.len(),
            forall|i: int| 0 <= i < params@.len() ==> #[trigger] params@[i]@ == all[at + i],
        ensures
            final(self)@.vars.len() > 0,
            forall|g: Gen|
                old(self)@ == #[trigger] bind_params(g, all, at as nat) ==> final(self)@
                    == bind_params(g, all, all.len()),
    {
        let ghost start = self@;
        let mut i: usize = 0;
        while i < params.len()
            invariant
                i <= params@.len(),
                at <= 1,
                at + params@.len() == all.len(),
                forall|k: int| 0 <= k < params@.len() ==> #[trigger] params@[k]@ == all[at + k],
                self@.vars.len() > 0,
                forall|g: Gen|
                    start == #[trigger] bind_params(g, all, at as nat) ==> self@ == bind_params(
                        g,
                        all,
                        (at + i) as nat,
                    ),
            decreases params@.len() - i,
        {
            let p = &params[i];
            assert(p@ == all[at + i]);
            self.bind_var(p.name.as_str(), p.ty, Val::Param(at + i));
            i = i + 1;
        }
    }

    /// Releases the heap words of a block, from word `at` on.
    fn drop_words(&mut self, at: usize, types: &Vec<Type>)
        ensures
            final(self)@ == drop_words(old(self)@, at as nat, types@, types@.len()),
    {
        let mut i: usize = 0;
        while i < types.len()
            invariant
                i <= types@.len(),
                self@ == drop_words(old(self)@, at as nat, types@, i as nat),
            decreases types@.len() - i,
        {
            if types[i].is_heap() {
                let word: i64 = (at as u128 + i as u128) as i64;
                let slot = self.emit(Ins::Gep(Ty::I64, Val::Param(0), Val::Int(word)));
                let v = self.emit(Ins::Load(Ty::Ptr, slot));
                self.emit_release(v);
            }
            i = i + 1;
        }
    }
}

/// A function of the module.
pub struct FnCode {
    pub name: String,
    pub params: Vec<Ty>,
    pub ret: Ty,
    /// Whether it is hidden from other modules.
    pub internal: bool,
    pub code: Vec<Ins>,
}

impl FnCode {
    pub open spec fn view(&self) -> FnV {
        FnV {
            name: self.name@,
            params: self.params@,
            ret: self.ret,
            internal: self.internal,
            code: self.code@,
        }
    }
}

pub open spec fn fns_v(s: Seq<FnCode>) -> Seq<FnV> {
    Seq::new(s.len(), |i: int| s[i]@)
}

/// A whole module.
pub struct Module {
    pub symbols: Vec<Symbol>,
    pub functions: Vec<FnCode>,
    pub lits: Vec<String>,
    pub floats: Vec<String>,
    /// The names that destructors of structs and enums are called after.
    pub struct_names: Vec<String>,
    pub enum_names: Vec<String>,
}

impl Module {
    pub open spec fn view(&self) -> ModuleV {
        ModuleV {
            symbols: symbols_v(self.symbols@),
            functions: fns_v(self.functions@),
            lits: names_v(self.lits@),
            floats: names_v(self.floats@),
            struct_names: names_v(self.struct_names@),
            enum_names: names_v(self.enum_names@),
        }
    }
}

/// The module of an empty program.
pub open spec fn empty_module() -> ModuleV {
    ModuleV {
        symbols: Seq::empty(),
        functions: Seq::empty(),
        lits: Seq::empty(),
        floats: Seq::empty(),
        struct_names: Seq::empty(),
        enum_names: Seq::empty(),
    }
}

/// Appends a function.
fn add_fn(fns: &mut Vec<FnCode>, f: FnCode)
    ensures
        fns_v(final(fns)@) == fns_v(old(fns)@).push(f@),
{
    let ghost before = fns_v(fns@);
    let ghost last = f@;
    fns.push(f);
    assert(fns_v(fns@) =~= before.push(last));
}

/// What calls name a function by.
fn key_of(structs: &Vec<StructDef>, f: &Function) -> (s: String)
    ensures
        s@ == function_key(structs_v(structs@), f@),
{
    if let Some(recv) = &f.recv {
        if let Type::Struct(id) = recv.ty {
            if (id as usize) < structs.len() {
                assert(structs_v(structs@)[id as int] == structs@[id as int]@);
                return Function::method_symbol(
                    structs[id as usize].name.as_str(),
                    f.name.as_str(),
                );
            }
        }
    }
    f.name.clone()
}

/// The name a function has in the module.
fn name_in_module(structs: &Vec<StructDef>, f: &Function) -> (s: String)
    ensures
        s@ == function_name(structs_v(structs@), f@),
{
    let key = key_of(structs, f);
    if same(key.as_str(), "main") {
        String::from_str("xia_main")
    } else {
        key
    }
}

/// The types of the values of some types.
fn basic_types(types: &Vec<Type>) -> (out: Vec<Ty>)
    ensures
        out@ == tys_of(types@),
{
    let mut out: Vec<Ty> = Vec::new();
    let mut i: usize = 0;
    while i < types.len()
        invariant
            i <= types@.len(),
            out@ =~= tys_of(types@).take(i as int),
        decreases types@.len() - i,
    {
        out.push(basic_type(types[i]));
        i = i + 1;
    }
    out
}

/// The types of a function's parameters, its receiver first.
fn param_types_of(f: &Function) -> (out: Vec<Ty>)
    ensures
        out@ == param_tys(all_params(f@)),
{
    let ghost all = param_tys(all_params(f@));
    let mut out: Vec<Ty> = Vec::new();
    if let Some(recv) = &f.recv {
        out.push(basic_type(recv.ty));
    }
    let ghost first = out@.len();
    let mut i: usize = 0;
    while i < f.params.len()
        invariant
            i <= f.params@.len(),
            all == param_tys(all_params(f@)),
            first == (if f.recv is Some {
                1nat
            } else {
                0
            }),
            out@ =~= all.take(first + i),
        decreases f.params@.len() - i,
    {
        assert(params_v(f.params@)[i as int] == f.params@[i as int]@);
        assert(all[first + i] == ty_of(f.params@[i as int].ty));
        out.push(basic_type(f.params[i].ty));
        i = i + 1;
    }
    assert(all.take(all.len() as int) =~= all);
    out
}

/// Appends a symbol.
fn add_symbol(symbols: &mut Vec<Symbol>, s: Symbol)
    ensures
        symbols_v(final(symbols)@) == symbols_v(old(symbols)@).push(s@),
{
    let ghost before = symbols_v(symbols@);
    let ghost last = s@;
    symbols.push(s);
    assert(symbols_v(symbols@) =~= before.push(last));
}

/// What lowering needs to know of a program.
fn decls_of(p: &Program) -> (d: Decls)
    ensures
        d@ == cx_of(p@),
{
    let ghost all = symbols_of(p@);
    let mut symbols: Vec<Symbol> = Vec::new();
    let mut callees: StringHashMap<usize> = StringHashMap::new();
    assert(symbols_v(symbols@) =~= all.take(0));
    let mut i: usize = 0;
    while i < p.externs.len()
        invariant
            i <= p.externs@.len(),
            all == symbols_of(p@),
            symbols@.len() == i,
            symbols_v(symbols@) == all.take(i as int),
            callees@ == callees_of(p@, i as nat),
        decreases p.externs@.len() - i,
    {
        let x = &p.externs[i];
        assert(p@.externs[i as int] == x@);
        assert(all[i as int] == extern_symbol(x@));
        callees.insert(x.name.clone(), i);
        add_symbol(
            &mut symbols,
            Symbol {
                name: x.name.clone(),
                params: basic_types(&x.params),
                varargs: x.varargs,
                ret: x.ret,
                is_extern: true,
            },
        );
        assert(all.take(i + 1) =~= all.take(i as int).push(all[i as int]));
        i = i + 1;
    }
    let ghost nx = p.externs@.len();
    let mut j: usize = 0;
    while j < p.functions.len()
        invariant
            j <= p.functions@.len(),
            nx == p.externs@.len(),
            all == symbols_of(p@),
            symbols@.len() == nx + j,
            symbols_v(symbols@) == all.take(nx + j),
            callees@ == callees_of(p@, (nx + j) as nat),
        decreases p.functions@.len() - j,
    {
        let f = &p.functions[j];
        assert(p@.functions[j as int] == f@);
        assert(all[nx + j] == function_symbol(p@.structs, f@));
        callees.insert(key_of(&p.structs, f), symbols.len());
        add_symbol(
            &mut symbols,
            Symbol {
                name: name_in_module(&p.structs, f),
                params: param_types_of(f),
                varargs: false,
                ret: f.ret,
                is_extern: false,
            },
        );
        assert(all.take(nx + j + 1) =~= all.take(nx + j).push(all[nx + j]));
        j = j + 1;
    }
    assert(all.take(all.len() as int) =~= all);
    let mut struct_ids: StringHashMap<u32> = StringHashMap::new();
    let mut k: usize = 0;
    while k < p.structs.len()
        invariant
            k <= p.structs@.len(),
            struct_ids@ == struct_ids_of(p@.structs, k as nat),
        decreases p.structs@.len() - k,
    {
        assert(p@.structs[k as int] == p.structs@[k as int]@);
        struct_ids.insert(p.structs[k].name.clone(), k as u32);
        k = k + 1;
    }
    Decls {
        symbols,
        callees,
        structs: copied_structs(&p.structs),
        struct_ids,
        enums: copied_enums(&p.enums),
    }
}

/// Lowers a function.
fn compile_function(cx: &Decls, lits: Vec<String>, floats: Vec<String>, f: &Function) -> (r: Result<
    Lowerer,
    String,
>)
    ensures
        match r {
            Ok(g) => low_function(cx@, names_v(lits@), names_v(floats@), f@) == Ok::<_, Seq<char>>(
                g@,
            ),
            Err(m) => low_function(cx@, names_v(lits@), names_v(floats@), f@) matches Err(e) && e
                == m@,
        },
{
    let ghost all = all_params(f@);
    let mut g = Lowerer::start(lits, floats);
    let ghost start = g@;
    let first: usize = match &f.recv {
        Some(recv) => {
            assert(all[0] == recv@);
            g.bind_var(recv.name.as_str(), recv.ty, Val::Param(0));
            assert(bind_params(start, all, 0) == start);
            1
        },
        None => 0,
    };
    assert(g@ == bind_params(start, all, first as nat));
    g.bind_params(&f.params, first, Ghost(all));
    match g.compile_block(cx, &f.body) {
        Ok(_) => {},
        Err(m) => {
            return Err(m);
        },
    }
    // Implicit return for unit functions that fall off the end.
    if g.is_open() {
        if f.ret == Type::Unit {
            g.emit(Ins::RetVoid);
        } else {
            return Err(
                cat5(
                    "function `",
                    f.name.as_str(),
                    "` may end without returning a ",
                    f.ret.to_text().as_str(),
                    " value",
                ),
            );
        }
    }
    Ok(g)
}

// ----- destructors -----------------------------------------------------------------------------
fn no_names() -> (v: Vec<String>)
    ensures
        names_v(v@) == Seq::<Seq<char>>::empty(),
{
    let v: Vec<String> = Vec::new();
    assert(names_v(v@) =~= Seq::empty());
    v
}

/// The destructor of a struct.
fn struct_destructor(def: &StructDef) -> (code: Vec<Ins>)
    ensures
        code@ == drop_struct(def@),
{
    let types = types_of_fields(def);
    let mut g = Lowerer::start(no_names(), no_names());
    g.drop_words(0, &types);
    g.emit(Ins::RetVoid);
    g.finish().0
}

/// The destructor of an enum.
fn enum_destructor(def: &EnumDef) -> (code: Vec<Ins>)
    ensures
        code@ == drop_enum(def@),
{
    let mut g = Lowerer::start(no_names(), no_names());
    let tag = g.emit(Ins::Load(Ty::I64, Val::Param(0)));
    let ghost start = g@;
    let mut i: usize = 0;
    while i < def.variants.len()
        invariant
            i <= def.variants@.len(),
            g@ == drop_variants(start, def@, tag, i as nat),
        decreases def.variants@.len() - i,
    {
        let fields = &def.variants[i].fields;
        assert(def@.variants[i as int].fields == fields@);
        if holds_heap(fields) {
            let hit = g.emit(Ins::Cmp(Pred::Eq, Ty::I64, tag, Val::Int(i as i64)));
            let here = g.label(Mark::Variant);
            let next = g.label(Mark::NextVariant);
            g.emit(Ins::CondBr(hit, here, next));
            g.begin(here);
            g.drop_words(1, fields);
            g.emit(Ins::RetVoid);
            g.begin(next);
        }
        i = i + 1;
    }
    g.emit(Ins::RetVoid);
    g.finish().0
}

/// A destructor as a function of the module.
fn destructor(name: &str, code: Vec<Ins>) -> (f: FnCode)
    ensures
        f@ == drop_fn(name@, code@),
{
    let params = vec![Ty::Ptr];
    assert(params@ =~= seq![Ty::Ptr]);
    FnCode { name: cat2("xia_drop_", name), params, ret: Ty::Void, internal: true, code }
}

/// Appends the destructors of the structs and enums that own heap data, but for
/// those that the program defines itself.
fn add_destructors(symbols: &Vec<Symbol>, fns: &mut Vec<FnCode>, p: &Program)
    ensures
        fns_v(final(fns)@) == fns_v(old(fns)@) + struct_drops(
            symbols_v(symbols@),
            p@.structs,
            p@.structs.len(),
        ) + enum_drops(symbols_v(symbols@), p@.enums, p@.enums.len()),
{
    let ghost syms = symbols_v(symbols@);
    let ghost given = fns_v(fns@);
    let mut i: usize = 0;
    assert(given + struct_drops(syms, p@.structs, 0) =~= given);
    while i < p.structs.len()
        invariant
            syms == symbols_v(symbols@),
            i <= p.structs@.len(),
            fns_v(fns@) == given + struct_drops(syms, p@.structs, i as nat),
        decreases p.structs@.len() - i,
    {
        let def = &p.structs[i];
        assert(p@.structs[i as int] == def@);
        let ghost before = struct_drops(syms, p@.structs, i as nat);
        let name = cat2("xia_drop_", def.name.as_str());
        if holds_heap(&types_of_fields(def)) && find_symbol(symbols, name.as_str()).is_none() {
            let f = destructor(def.name.as_str(), struct_destructor(def));
            let ghost last = f@;
            add_fn(fns, f);
            assert(given + before.push(last) =~= (given + before).push(last));
        }
        i = i + 1;
    }
    let ghost half = given + struct_drops(syms, p@.structs, p@.structs.len());
    let mut j: usize = 0;
    assert(half + enum_drops(syms, p@.enums, 0) =~= half);
    while j < p.enums.len()
        invariant
            syms == symbols_v(symbols@),
            j <= p.enums@.len(),
            fns_v(fns@) == half + enum_drops(syms, p@.enums, j as nat),
        decreases p.enums@.len() - j,
    {
        let def = &p.enums[j];
        assert(p@.enums[j as int] == def@);
        let ghost before = enum_drops(syms, p@.enums, j as nat);
        let name = cat2("xia_drop_", def.name.as_str());
        if owns_heap(def) && find_symbol(symbols, name.as_str()).is_none() {
            let f = destructor(def.name.as_str(), enum_destructor(def));
            let ghost last = f@;
            add_fn(fns, f);
            assert(half + before.push(last) =~= (half + before).push(last));
        }
        j = j + 1;
    }
}

// ----- modules ---------------------------------------------------------------------------------
/// The position of the first symbol of that name.
fn find_symbol(symbols: &Vec<Symbol>, name: &str) -> (r: Option<usize>)
    ensures
        match r {
            Some(i) => symbol_index(symbols_v(symbols@), name@, 0) == Some(i as int) && i
                < symbols@.len(),
            None => symbol_index(symbols_v(symbols@), name@, 0) is None,
        },
{
    let mut i: usize = 0;
    while i < symbols.len()
        invariant
            i <= symbols@.len(),
            symbol_index(symbols_v(symbols@), name@, 0) == symbol_index(
                symbols_v(symbols@),
                name@,
                i as int,
            ),
        decreases symbols@.len() - i,
    {
        assert(symbols_v(symbols@)[i as int] == symbols@[i as int]@);
        if same(symbols[i].name.as_str(), name) {
            return Some(i);
        }
        i = i + 1;
    }
    None
}

/// Whether some instructions call a function.
fn code_has_call(code: &Vec<Ins>, c: Callee) -> (b: bool)
    ensures
        b == code_calls(code@, c),
{
    let mut i: usize = 0;
    while i < code.len()
        invariant
            i <= code@.len(),
            forall|k: int| 0 <= k < i ==> !is_call(#[trigger] code@[k], c),
        decreases code@.len() - i,
    {
        if let Ins::Call(_, callee, _) = code[i] {
            if callee == c {
                assert(is_call(code@[i as int], c));
                return true;
            }
        }
        i = i + 1;
    }
    false
}

/// Whether some functions call a function.
pub fn have_call(fns: &Vec<FnCode>, c: Callee) -> (b: bool)
    ensures
        b == calls(fns_v(fns@), c),
{
    let mut i: usize = 0;
    while i < fns.len()
        invariant
            i <= fns@.len(),
            forall|k: int| 0 <= k < i ==> !code_calls((#[trigger] fns_v(fns@)[k]).code, c),
        decreases fns@.len() - i,
    {
        assert(fns_v(fns@)[i as int] == fns@[i as int]@);
        if code_has_call(&fns[i].code, c) {
            return true;
        }
        i = i + 1;
    }
    false
}

/// `int main()` shim: calls `xia_main`, truncating int results to i32.
fn emit_c_main(sym: &Symbol, index: usize) -> (f: FnCode)
    ensures
        f@ == c_main(sym@, index),
{
    let start = Ins::Label(Label { mark: Mark::Entry, at: 0 });
    let call = Ins::Call(basic_type(sym.ret), Callee::Symbol(index), 0);
    let code: Vec<Ins> = if sym.ret == Type::Int {
        vec![
            start,
            call,
            Ins::Convert(Conv::Trunc32, Val::Reg(1)),
            Ins::Ret(Ty::I32, Val::Reg(2)),
        ]
    } else {
        vec![start, call, Ins::Ret(Ty::I32, Val::Int(0))]
    };
    let f = FnCode {
        name: String::from_str("main"),
        params: Vec::new(),
        ret: Ty::I32,
        internal: false,
        code,
    };
    assert(f@ =~= c_main(sym@, index));
    f
}

/// Appends the runtime functions that are called and that the program does not
/// define itself.
fn add_runtime(symbols: &Vec<Symbol>, fns: &mut Vec<FnCode>)
    ensures
        fns_v(final(fns)@) == with_runtime(
            symbols_v(symbols@),
            fns_v(old(fns)@),
            rt_order().len(),
        ),
{
    let ghost given = fns_v(fns@);
    let order = all_rt();
    let mut i: usize = 0;
    while i < order.len()
        invariant
            i <= order@.len(),
            order@ == rt_order(),
            fns_v(fns@) == with_runtime(symbols_v(symbols@), given, i as nat),
        decreases order@.len() - i,
    {
        let rt: Rt = order[i];
        if have_call(fns, Callee::Runtime(rt)) && find_symbol(
            symbols,
            name_of(rt),
        ).is_none() {
            add_fn(
                fns,
                FnCode {
                    name: String::from_str(name_of(rt)),
                    params: params_of(rt),
                    ret: ret_of(rt),
                    internal: true,
                    code: code_of(rt),
                },
            );
        }
        i = i + 1;
    }
}

pub struct CodeGen {
    pub module: Module,
}

impl CodeGen {
    pub fn new() -> (c: Self)
        ensures
            c.module@ == empty_module(),
    {
        let c = CodeGen {
            module: Module {
                symbols: Vec::new(),
                functions: Vec::new(),
                lits: Vec::new(),
                floats: Vec::new(),
                struct_names: Vec::new(),
                enum_names: Vec::new(),
            },
        };
        assert(c.module@ =~= empty_module());
        c
    }

    /// Lowers a whole program; the module is left alone where that fails.
    pub fn compile(&mut self, program: &Program) -> (r: Result<(), String>)
        ensures
            match r {
                Ok(_) => lowered(program@) == Ok::<_, Seq<char>>(final(self).module@),
                Err(m) => {
                    &&& lowered(program@) matches Err(e) && e == m@
                    &&& final(self).module@ == old(self).module@
                },
            },
    {
        let cx = decls_of(program);
        let ghost given = program@.functions;
        let mut fns: Vec<FnCode> = Vec::new();
        let mut lits: Vec<String> = no_names();
        let mut floats: Vec<String> = no_names();
        assert(fns_v(fns@) =~= Seq::empty());
        let mut i: usize = 0;
        while i < program.functions.len()
            invariant
                i <= program.functions@.len(),
                given == program@.functions,
                cx@ == cx_of(program@),
                low_functions(cx@, given, i as nat) == Ok::<_, Seq<char>>(
                    (fns_v(fns@), names_v(lits@), names_v(floats@)),
                ),
                *self == *old(self),
            decreases program.functions@.len() - i,
        {
            let f = &program.functions[i];
            assert(given[i as int] == f@);
            let g = match compile_function(&cx, lits, floats, f) {
                Ok(g) => g,
                Err(m) => {
                    proof {
                        lemma_functions_fault(cx@, given, (i + 1) as nat, given.len());
                    }
                    return Err(m);
                },
            };
            let (code, more_lits, more_floats) = g.finish();
            add_fn(
                &mut fns,
                FnCode {
                    name: name_in_module(&cx.structs, f),
                    params: param_types_of(f),
                    ret: basic_type(f.ret),
                    internal: false,
                    code,
                },
            );
            lits = more_lits;
            floats = more_floats;
            i = i + 1;
        }
        add_destructors(&cx.symbols, &mut fns, program);
        if let Some(m) = find_symbol(&cx.symbols, "xia_main") {
            assert(cx@.symbols[m as int] == cx.symbols@[m as int]@);
            if cx.symbols[m].params.len() > 0 {
                return Err(String::from_str("codegen: `main` must not take parameters"));
            }
            add_fn(&mut fns, emit_c_main(&cx.symbols[m], m));
        }
        add_runtime(&cx.symbols, &mut fns);
        let structs = names_of_structs(&program.structs);
        let enums = names_of_enums(&program.enums);
        self.module = Module {
            symbols: cx.symbols,
            functions: fns,
            lits,
            floats,
            struct_names: structs,
            enum_names: enums,
        };
        Ok(())
    }
}

/// A fault in the first `k` functions is a fault of them all.
proof fn lemma_functions_fault(cx: Cx, fs: Seq<FunctionV>, k: nat, n: nat)
    requires
        k <= n <= fs.len(),
        low_functions(cx, fs, k) is Err,
    ensures
        low_functions(cx, fs, n) == low_functions(cx, fs, k),
    decreases n,
{
    if k < n {
        lemma_functions_fault(cx, fs, k, (n - 1) as nat);
    }
}

fn names_of_structs(structs: &Vec<StructDef>) -> (names: Vec<String>)
    ensures
        names_v(names@) == struct_names(structs_v(structs@)),
{
    let mut names: Vec<String> = Vec::new();
    let mut i: usize = 0;
    while i < structs.len()
        invariant
            i <= structs@.len(),
            names_v(names@) =~= struct_names(structs_v(structs@)).take(i as int),
        decreases structs@.len() - i,
    {
        let ghost before = names_v(names@);
        names.push(structs[i].name.clone());
        assert(names_v(names@) =~= before.push(structs@[i as int].name@));
        i = i + 1;
    }
    names
}

fn names_of_enums(enums: &Vec<EnumDef>) -> (names: Vec<String>)
    ensures
        names_v(names@) == enum_names(enums_v(enums@)),
{
    let mut names: Vec<String> = Vec::new();
    let mut i: usize = 0;
    while i < enums.len()
        invariant
            i <= enums@.len(),
            names_v(names@) =~= enum_names(enums_v(enums@)).take(i as int),
        decreases enums@.len() - i,
    {
        let ghost before = names_v(names@);
        names.push(enums[i].name.clone());
        assert(names_v(names@) =~= before.push(enums@[i as int].name@));
        i = i + 1;
    }
    names
}

} // verus!
