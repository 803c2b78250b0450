//! Phase 3 (continued): Automatic Reference Counting.
//!
//! Xia has no garbage collector. After type checking, this pass walks the AST
//! and inserts `Stmt::Retain` / `Stmt::Release` so every heap value's
//! refcount is balanced at scope boundaries. The ownership model is stated in
//! [`crate::counting`].
use vstd::prelude::*;
use crate::ast::{
    arms_v, block_v, functions_v, names_v, opt_expr_v, Expr, ExprKind, Function, MatchArm, Pattern,
    PatternV, Program, ProgramV, Stmt, StmtV, Type,
};
use crate::counting::{
    any_owned, arc_arm, arc_arms, arc_block, arc_function, arc_functions, arc_program, arc_return,
    arc_stmt, arc_stmts, arm_bindings, counted_name, drops, falls_through, heap_elem, heap_type,
    held_bindings, level, param_bindings, takes, terminator, tmp_after, tmp_name, ArcV, BindingV,
};
use crate::diag::Span;
use crate::lowering::all_params;
use crate::naming::prime;
use crate::text::{cat2, dec_usize, same};

verus! {

/// A binding in sight, and whether it is of a heap type.
struct Binding {
    name: String,
    heap: bool,
}

impl Binding {
    spec fn view(&self) -> BindingV {
        BindingV { name: self.name@, heap: self.heap }
    }
}

spec fn binds_v(s: Seq<Binding>) -> Seq<BindingV> {
    Seq::new(s.len(), |i: int| s[i]@)
}

pub struct ArcInserter {
    /// The bindings in sight, outermost first.
    binds: Vec<Binding>,
    /// How many of them are outside the body of the innermost loop.
    around: usize,
    tmp_counter: usize,
}

fn is_terminator(stmt: &Stmt) -> (b: bool)
    ensures
        b == terminator(stmt@),
{
    match stmt {
        Stmt::Return { .. } | Stmt::Break { .. } | Stmt::Continue { .. } => true,
        _ => false,
    }
}

/// Whether the last statement is passed.
fn passes(out: &Vec<Stmt>) -> (b: bool)
    ensures
        b == falls_through(block_v(out@)),
{
    if out.len() == 0 {
        return true;
    }
    assert(block_v(out@).last() == out@[out@.len() - 1]@);
    !is_terminator(&out[out.len() - 1])
}

fn is_heap_type(ty: Option<Type>) -> (b: bool)
    ensures
        b == heap_type(ty),
{
    match ty {
        Some(t) => t.is_heap(),
        None => false,
    }
}

/// Whether the elements of an array of that type live on the heap.
fn is_heap_elem(ty: Option<Type>) -> (b: bool)
    ensures
        b == heap_elem(ty),
{
    match ty {
        Some(Type::Array(base, dims)) => dims != 1 || base.to_type().is_heap(),
        _ => false,
    }
}

/// Appends a statement.
fn emit(out: &mut Vec<Stmt>, s: Stmt)
    ensures
        block_v(final(out)@) == block_v(old(out)@).push(s@),
{
    let ghost before = block_v(out@);
    let ghost last = s@;
    out.push(s);
    assert(block_v(out@) =~= before.push(last));
}

impl ArcInserter {
    /// The bindings in sight and the next temporary.
    pub closed spec fn view(&self) -> ArcV {
        ArcV { binds: binds_v(self.binds@), around: self.around as nat, tmp: self.tmp_counter }
    }

    pub fn new() -> (a: Self)
        ensures
            a@ == (ArcV { binds: Seq::empty(), around: 0, tmp: 0 }),
    {
        let a = ArcInserter { binds: Vec::new(), around: 0, tmp_counter: 0 };
        assert(a@.binds =~= Seq::empty());
        a
    }

    /// Inserts the retains and releases of a whole program.
    pub fn run(&mut self, program: &mut Program)
        ensures
            (final(program)@, final(self)@.tmp) == arc_program(old(self)@.tmp, old(program)@),
    {
        let ghost given = program@.functions;
        let ghost whole = arc_functions(self@.tmp, given, 0);
        let mut i: usize = 0;
        assert(whole.0 =~= functions_v(program.functions@).take(0) + whole.0);
        while i < program.functions.len()
            invariant
                i <= program.functions@.len() == given.len(),
                given == old(program)@.functions,
                whole == arc_functions(old(self)@.tmp, given, 0),
                forall|j: int|
                    i <= j < given.len() ==> #[trigger] program.functions@[j]@ == given[j],
                program@ == (ProgramV { functions: program@.functions, ..old(program)@ }),
                ({
                    let rest = arc_functions(self@.tmp, given, i as int);
                    &&& whole.0 == functions_v(program.functions@).take(i as int) + rest.0
                    &&& whole.1 == rest.1
                }),
            decreases program.functions@.len() - i,
        {
            let ghost prefix = functions_v(program.functions@).take(i as int);
            self.process_function(&mut program.functions[i]);
            let ghost head = program.functions@[i as int]@;
            proof {
                assert(functions_v(program.functions@).take(i + 1) =~= prefix + seq![head]);
                let rest = arc_functions(self@.tmp, given, i + 1).0;
                assert(prefix + (seq![head] + rest) =~= prefix + seq![head] + rest);
            }
            i = i + 1;
        }
        assert(functions_v(program.functions@).take(i as int) + Seq::empty()
            =~= functions_v(program.functions@));
    }

    fn process_function(&mut self, f: &mut Function)
        ensures
            (final(f)@, final(self)@.tmp) == arc_function(old(self)@.tmp, old(f)@),
    {
        self.binds = Vec::new();
        self.around = 0;
        self.see_params(f);
        let ghost params = param_bindings(f@);
        let ghost start = self@;
        let n: usize = self.binds.len();
        let mut new_body: Vec<Stmt> = Vec::new();
        proof {
            reveal(takes);
        }
        assert(block_v(new_body@) =~= takes(params, 0));
        let mut i: usize = 0;
        while i < n
            invariant
                i <= n == params.len(),
                self@ == start,
                start.binds == params,
                block_v(new_body@) == takes(params, i as nat),
            decreases n - i,
        {
            proof {
                reveal(takes);
            }
            if self.is_heap_at(i) {
                emit(&mut new_body, Stmt::Retain(self.counted_name(i)));
            }
            i = i + 1;
        }
        let ghost retains = block_v(new_body@);
        let mut body: Vec<Stmt> = Vec::new();
        core::mem::swap(&mut f.body, &mut body);
        // A unit function may fall off the end without `return`; the
        // retained parameters need their releases there, too.
        let processed = self.process_block(body, 0);
        append_all(&mut new_body, processed);
        f.body = new_body;
    }

    /// The parameters of a function come into sight.
    fn see_params(&mut self, f: &Function)
        requires
            old(self)@.binds.len() == 0,
        ensures
            final(self)@ == (ArcV { binds: param_bindings(f@), ..old(self)@ }),
    {
        let ghost params = all_params(f@);
        let ghost all = param_bindings(f@);
        let ghost r = params.len() - f@.params.len();
        if let Some(recv) = &f.recv {
            self.see(recv.name.clone(), recv.ty.is_heap());
        }
        assert(self@.binds =~= all.take(r));
        let mut i: usize = 0;
        while i < f.params.len()
            invariant
                i <= f.params@.len(),
                params == all_params(f@),
                all == param_bindings(f@),
                r == params.len() - f@.params.len(),
                self@ == (ArcV { binds: all.take(r + i), ..old(self)@ }),
            decreases f.params@.len() - i,
        {
            assert(params[r + i] == f.params@[i as int]@);
            self.see(f.params[i].name.clone(), f.params[i].ty.is_heap());
            assert(all.take(r + i + 1) =~= all.take(r + i).push(all[r + i]));
            i = i + 1;
        }
        assert(all.take(r + i) =~= all);
    }

    /// A binding comes into sight.
    fn see(&mut self, name: String, heap: bool)
        ensures
            final(self)@ == (ArcV {
                binds: old(self)@.binds.push(BindingV { name: name@, heap }),
                ..old(self)@
            }),
    {
        let ghost before = self@.binds;
        let ghost last = BindingV { name: name@, heap };
        self.binds.push(Binding { name, heap });
        assert(self@.binds =~= before.push(last));
    }

    /// Only the first `n` bindings stay in sight.
    fn forget(&mut self, n: usize)
        requires
            n <= old(self)@.binds.len(),
        ensures
            final(self)@ == (ArcV { binds: old(self)@.binds.take(n as int), ..old(self)@ }),
    {
        let ghost before = self@.binds;
        self.binds.truncate(n);
        assert(self@.binds =~= before.take(n as int));
    }

    fn is_heap_at(&self, i: usize) -> (b: bool)
        requires
            i < self@.binds.len(),
        ensures
            b == self@.binds[i as int].heap,
    {
        self.binds[i].heap
    }

    /// What a binding is counted by.
    fn counted_name(&self, i: usize) -> (name: String)
        requires
            i < self@.binds.len(),
        ensures
            name@ == counted_name(self@.binds, i as int),
    {
        proof {
            reveal(counted_name);
        }
        let ghost binds = self@.binds;
        let ghost name = binds[i as int].name;
        let n: usize = self.binds.len();
        let mut k: usize = 0;
        let mut j: usize = i + 1;
        while j < n
            invariant
                i < j <= n == self.binds@.len(),
                binds == self@.binds,
                name == binds[i as int].name,
                k <= j - i - 1,
                k == level(binds.take(j as int), name) - level(binds.take(i + 1), name),
            decreases self.binds@.len() - j,
        {
            assert(binds.take(j + 1).drop_last() =~= binds.take(j as int));
            assert(binds.take(j + 1).last() == self.binds@[j as int]@);
            if same(self.binds[j].name.as_str(), self.binds[i].name.as_str()) {
                k = k + 1;
            }
            j = j + 1;
        }
        assert(binds.take(j as int) =~= binds);
        prime(self.binds[i].name.as_str(), k)
    }

    /// Appends releases of the heap bindings from position `from` on, the last
    /// one first.
    fn emit_drops(&self, out: &mut Vec<Stmt>, from: usize)
        ensures
            block_v(final(out)@) == block_v(old(out)@) + drops(
                self@.binds,
                from as nat,
                self@.binds.len(),
            ),
    {
        let ghost binds = self@.binds;
        let ghost before = block_v(out@);
        let ghost all = drops(binds, from as nat, binds.len());
        proof {
            reveal(drops);
        }
        let mut n: usize = self.binds.len();
        assert(before + all =~= block_v(out@) + all);
        while n > from
            invariant
                n <= self.binds@.len(),
                binds == self@.binds,
                before + all == block_v(out@) + drops(binds, from as nat, n as nat),
            decreases n,
        {
            proof {
                reveal(drops);
            }
            let ghost here = block_v(out@);
            let ghost rest = drops(binds, from as nat, (n - 1) as nat);
            n = n - 1;
            if self.is_heap_at(n) {
                let name = self.counted_name(n);
                let ghost one = StmtV::Release(name@);
                emit(out, Stmt::Release(name));
                assert(here + (seq![one] + rest) =~= here.push(one) + rest);
            }
        }
        assert(block_v(out@) + Seq::empty() =~= block_v(out@));
    }

    /// Rewrites a block, which releases the heap bindings from position `from`
    /// on at its end; its own bindings are out of sight behind it.
    fn process_block(&mut self, block: Vec<Stmt>, from: usize) -> (out: Vec<Stmt>)
        ensures
            (block_v(out@), final(self)@.tmp) == arc_block(
                old(self)@,
                block_v(block@),
                from as nat,
            ),
            final(self)@ == (ArcV { tmp: final(self)@.tmp, ..old(self)@ }),
        decreases block, 1nat,
    {
        let ghost given = block_v(block@);
        let ghost trees = block@;
        let ghost start = self@;
        let n: usize = self.binds.len();
        let ghost whole = arc_stmts(start, given, 0);
        let mut out: Vec<Stmt> = Vec::new();
        assert(whole.0 =~= block_v(out@) + whole.0);
        assert(start.binds.take(n as int) =~= start.binds);
        for stmt in it: block
            invariant
                it.seq() == trees,
                given == block_v(trees),
                forall|j: int| 0 <= j < trees.len() ==> decreases_to!(block => #[trigger] trees[j]),
                whole == arc_stmts(start, given, 0),
                n == start.binds.len() <= self@.binds.len(),
                self@.binds.take(n as int) == start.binds,
                self@.around == start.around,
                ({
                    let rest = arc_stmts(self@, given, it.index() as int);
                    &&& whole.0 == block_v(out@) + rest.0
                    &&& whole.1 == rest.1
                }),
        {
            let ghost before = block_v(out@);
            let ghost here = self@;
            assert(given[it.index() as int] == stmt@);
            self.process_stmt(stmt, &mut out);
            proof {
                let step = arc_stmt(here, given[it.index() as int]);
                let rest = arc_stmts(self@, given, it.index() + 1);
                assert(before + (step.0 + rest.0) =~= before + step.0 + rest.0);
                lemma_stmt_sees(here, given[it.index() as int]);
                assert(self@.binds.take(n as int) =~= here.binds.take(n as int));
            }
        }
        assert(block_v(out@) + Seq::empty() =~= block_v(out@));
        // Scope epilogue: release everything this scope owns, unless control
        // already left via return/break/continue (those released eagerly).
        if passes(&out) {
            self.emit_drops(&mut out, from);
        }
        self.forget(n);
        out
    }

    /// Rewrites a statement.
    fn process_stmt(&mut self, stmt: Stmt, out: &mut Vec<Stmt>)
        ensures
            block_v(final(out)@) == block_v(old(out)@) + arc_stmt(old(self)@, stmt@).0,
            final(self)@ == arc_stmt(old(self)@, stmt@).1,
        decreases stmt, 0nat,
    {
        let ghost before = block_v(out@);
        let ghost given = stmt@;
        let ghost start = self@;
        let n: usize = self.binds.len();
        match stmt {
            Stmt::Let { name, ty, value, line } => {
                let aliases = match &value.kind {
                    ExprKind::Var(_) => true,
                    _ => false,
                };
                assert(aliases == value@.kind is Var) by {
                    assert(value@.kind == crate::ast::kind_v(value.kind));
                }
                let own = name.clone();
                let heap = is_heap_type(ty);
                emit(out, Stmt::Let { name, ty, value, line });
                if heap && aliases {
                    emit(out, Stmt::Retain(own.clone()));
                }
                self.see(own, heap);
                assert(block_v(out@) =~= before + arc_stmt(old(self)@, given).0);
            },
            Stmt::Expr(e) => {
                if is_heap_type(e.ty) {
                    // Bind the discarded value so it can be released.
                    let aliases = match &e.kind {
                        ExprKind::Var(_) => true,
                        _ => false,
                    };
                    assert(aliases == e@.kind is Var) by {
                        assert(e@.kind == crate::ast::kind_v(e.kind));
                    }
                    let tmp = self.fresh_tmp();
                    let line: usize = e.span.line;
                    let ty = e.ty;
                    emit(out, Stmt::Let { name: tmp.clone(), ty, value: e, line });
                    if aliases {
                        emit(out, Stmt::Retain(tmp.clone()));
                    }
                    emit(out, Stmt::Release(tmp));
                } else {
                    emit(out, Stmt::Expr(e));
                }
                assert(block_v(out@) =~= before + arc_stmt(old(self)@, given).0);
            },
            Stmt::Return { value, line } => {
                self.lower_return(value, line, out);
            },
            Stmt::Break { line } => {
                self.emit_drops(out, self.around);
                emit(out, Stmt::Break { line });
                assert(block_v(out@) =~= before + arc_stmt(old(self)@, given).0);
            },
            Stmt::Continue { line } => {
                self.emit_drops(out, self.around);
                emit(out, Stmt::Continue { line });
                assert(block_v(out@) =~= before + arc_stmt(old(self)@, given).0);
            },
            Stmt::If { cond, then_block, else_block } => {
                let then_block = self.process_block(then_block, n);
                let else_block = match else_block {
                    Some(b) => Some(self.process_block(b, n)),
                    None => None,
                };
                emit(out, Stmt::If { cond, then_block, else_block });
                assert(block_v(out@) =~= before + arc_stmt(old(self)@, given).0);
            },
            Stmt::While { cond, body } => {
                let body = self.process_loop(body, n);
                emit(out, Stmt::While { cond, body });
                assert(block_v(out@) =~= before + arc_stmt(old(self)@, given).0);
            },
            Stmt::For { var, start: from, end, body, line } => {
                // The loop variable is an int — never heap.
                assert(start.binds + Seq::empty() =~= start.binds);
                self.see(var.clone(), false);
                let body = self.process_loop(body, n);
                self.forget(n);
                assert(self@.binds =~= start.binds);
                emit(out, Stmt::For { var, start: from, end, body, line });
                assert(block_v(out@) =~= before + arc_stmt(old(self)@, given).0);
            },
            Stmt::ForEach { var, iterable, body, line } => {
                let ghost held = held_bindings(var@, iterable@);
                self.hold(&var, &iterable);
                let around: usize = self.binds.len();
                self.see(var.clone(), is_heap_elem(iterable.ty));
                let body = self.process_loop(body, around);
                self.forget(n);
                assert(self@.binds =~= start.binds);
                emit(out, Stmt::ForEach { var, iterable, body, line });
                assert(block_v(out@) =~= before + arc_stmt(old(self)@, given).0);
            },
            Stmt::Match { scrutinee, arms, line } => {
                let arms = self.process_arms(arms);
                emit(out, Stmt::Match { scrutinee, arms, line });
                assert(block_v(out@) =~= before + arc_stmt(old(self)@, given).0);
            },
            other => {
                emit(out, other);
                assert(block_v(out@) =~= before + arc_stmt(old(self)@, given).0);
            },
        }
    }

    /// Rewrites the body of a loop; the bindings from position `from` on are
    /// inside of it.
    fn process_loop(&mut self, body: Vec<Stmt>, from: usize) -> (out: Vec<Stmt>)
        ensures
            (block_v(out@), final(self)@.tmp) == arc_block(
                ArcV { around: from as nat, ..old(self)@ },
                block_v(body@),
                from as nat,
            ),
            final(self)@ == (ArcV { tmp: final(self)@.tmp, ..old(self)@ }),
        decreases body, 2nat,
    {
        let outside: usize = self.around;
        self.around = from;
        let out = self.process_block(body, from);
        self.around = outside;
        out
    }

    /// Rewrites the arms of a match.
    fn process_arms(&mut self, arms: Vec<MatchArm>) -> (out: Vec<MatchArm>)
        ensures
            (arms_v(out@), final(self)@.tmp) == arc_arms(old(self)@, arms_v(arms@), 0),
            final(self)@ == (ArcV { tmp: final(self)@.tmp, ..old(self)@ }),
        decreases arms, 1nat,
    {
        let ghost given = arms_v(arms@);
        let ghost trees = arms@;
        let ghost start = self@;
        let n: usize = self.binds.len();
        let ghost whole = arc_arms(start, given, 0);
        let mut out: Vec<MatchArm> = Vec::new();
        assert(whole.0 =~= arms_v(out@) + whole.0);
        for arm in it: arms
            invariant
                it.seq() == trees,
                given == arms_v(trees),
                forall|j: int| 0 <= j < trees.len() ==> decreases_to!(arms => #[trigger] trees[j]),
                whole == arc_arms(start, given, 0),
                n == start.binds.len(),
                self@ == (ArcV { tmp: self@.tmp, ..start }),
                ({
                    let rest = arc_arms(self@, given, it.index() as int);
                    &&& whole.0 == arms_v(out@) + rest.0
                    &&& whole.1 == rest.1
                }),
        {
            let ghost before = arms_v(out@);
            let ghost here = self@;
            let ghost tree = arm@;
            assert(given[it.index() as int] == tree);
            let MatchArm { pattern, body } = arm;
            assert(tree.body == block_v(body@));
            self.see_pattern(&pattern);
            let body = self.process_block(body, n);
            self.forget(n);
            assert(self@.binds =~= here.binds);
            let done = MatchArm { pattern, body };
            let ghost last = done@;
            out.push(done);
            proof {
                assert(arms_v(out@) =~= before.push(last));
                assert(arc_arm(here, tree) == (last, self@.tmp));
                let rest = arc_arms(self@, given, it.index() + 1);
                assert(before + (seq![last] + rest.0) =~= before.push(last) + rest.0);
            }
        }
        assert(arms_v(out@) + Seq::empty() =~= arms_v(out@));
        out
    }

    /// The bindings of an arm come into sight.
    fn see_pattern(&mut self, pattern: &Pattern)
        ensures
            final(self)@ == (ArcV {
                binds: old(self)@.binds + arm_bindings(pattern@),
                ..old(self)@
            }),
    {
        let ghost start = self@.binds;
        let ghost all = arm_bindings(pattern@);
        assert(start + all.take(0) =~= start);
        match pattern {
            Pattern::Wildcard => {
                assert(start + all =~= start);
            },
            Pattern::Variant { name: _, bindings, types } => {
                let mut i: usize = 0;
                while i < bindings.len()
                    invariant
                        i <= bindings@.len() == all.len(),
                        all == arm_bindings(pattern@),
                        pattern@ matches PatternV::Variant { name, bindings: b, types: t }
                            && b == names_v(bindings@) && t == types@,
                        self@ == (ArcV { binds: start + all.take(i as int), ..old(self)@ }),
                    decreases bindings@.len() - i,
                {
                    let heap = i < types.len() && types[i].is_heap();
                    self.see(bindings[i].clone(), heap);
                    assert(start + all.take(i + 1) =~= (start + all.take(i as int)).push(
                        all[i as int],
                    ));
                    i = i + 1;
                }
                assert(all.take(i as int) =~= all);
            },
        }
    }

    /// The array that a `for x in xs` loop holds comes into sight, where the
    /// loop owns it.
    fn hold(&mut self, var: &String, iterable: &Expr)
        ensures
            final(self)@ == (ArcV {
                binds: old(self)@.binds + held_bindings(var@, iterable@),
                ..old(self)@
            }),
    {
        let ghost start = self@.binds;
        let borrowed = match &iterable.kind {
            ExprKind::Var(_) => true,
            _ => false,
        };
        assert(borrowed == iterable@.kind is Var) by {
            assert(iterable@.kind == crate::ast::kind_v(iterable.kind));
        }
        if !borrowed {
            self.see(cat2("in ", var.as_str()), true);
        }
        assert(self@.binds =~= start + held_bindings(var@, iterable@));
    }

    /// `return e` → `let $ret = e` (+ retain if aliasing), release all live
    /// locals, `return $ret`. Ownership of the result transfers to the caller.
    fn lower_return(&mut self, value: Option<Expr>, line: usize, out: &mut Vec<Stmt>)
        ensures
            block_v(final(out)@) == block_v(old(out)@) + arc_return(
                old(self)@,
                opt_expr_v(value),
                line,
            ).0,
            final(self)@ == arc_return(old(self)@, opt_expr_v(value), line).1,
    {
        let ghost before = block_v(out@);
        let ghost made = arc_return(self@, opt_expr_v(value), line).0;
        if !self.owns_any() {
            emit(out, Stmt::Return { value, line });
            assert(block_v(out@) =~= before + made);
            return;
        }
        match value {
            Some(e) => {
                let aliases = match &e.kind {
                    ExprKind::Var(_) => true,
                    _ => false,
                };
                assert(aliases == e@.kind is Var) by {
                    assert(e@.kind == crate::ast::kind_v(e.kind));
                }
                let ty = e.ty;
                let tmp = self.fresh_tmp();
                emit(out, Stmt::Let { name: tmp.clone(), ty, value: e, line });
                if is_heap_type(ty) && aliases {
                    emit(out, Stmt::Retain(tmp.clone()));
                }
                self.emit_drops(out, 0);
                let result = Expr { kind: ExprKind::Var(tmp), span: Span::line_only(line), ty };
                assert(result@.kind == crate::ast::kind_v(result.kind));
                emit(out, Stmt::Return { value: Some(result), line });
            },
            None => {
                self.emit_drops(out, 0);
                emit(out, Stmt::Return { value: None, line });
            },
        }
        assert(block_v(out@) =~= before + made);
    }

    /// Whether anything in sight is owned.
    fn owns_any(&self) -> (b: bool)
        ensures
            b == any_owned(self@.binds),
    {
        let mut i: usize = 0;
        while i < self.binds.len()
            invariant
                i <= self.binds@.len(),
                forall|k: int| 0 <= k < i ==> !(#[trigger] self@.binds[k]).heap,
            decreases self.binds@.len() - i,
        {
            if self.is_heap_at(i) {
                return true;
            }
            i = i + 1;
        }
        false
    }

    /// The name of the next temporary.
    pub fn fresh_tmp(&mut self) -> (name: String)
        ensures
            name@ == tmp_name(old(self)@.tmp),
            final(self)@ == (ArcV { tmp: tmp_after(old(self)@.tmp), ..old(self)@ }),
    {
        let n: usize = self.tmp_counter;
        self.tmp_counter = n.wrapping_add(1);
        cat2("$arc", dec_usize(n).as_str())
    }
}

/// Appends statements to others.
fn append_all(out: &mut Vec<Stmt>, more: Vec<Stmt>)
    ensures
        block_v(final(out)@) == block_v(old(out)@) + block_v(more@),
{
    let ghost before = block_v(out@);
    let ghost trees = more@;
    let ghost all = block_v(more@);
    assert(before =~= before + all.take(0));
    for s in it: more
        invariant
            it.seq() == trees,
            all == block_v(trees),
            block_v(out@) == before + all.take(it.index() as int),
    {
        emit(out, s);
        let k = Ghost(it.index() as int);
        assert(before + all.take(k@ + 1) =~= (before + all.take(k@)).push(all[k@]));
    }
    assert(all.take(all.len() as int) =~= all);
}

/// A statement adds at most a binding of its own.
proof fn lemma_stmt_sees(st: ArcV, s: StmtV)
    ensures
        ({
            let st1 = arc_stmt(st, s).1;
            &&& st1.around == st.around
            &&& st1.binds == (match s {
                StmtV::Let { name, ty, value, line } => st.binds.push(
                    BindingV { name, heap: heap_type(ty) },
                ),
                _ => st.binds,
            })
        }),
{
}

} // verus!
