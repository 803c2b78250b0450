//! What the destructors of structs and enums do when they run.
use vstd::prelude::*;
use crate::ast::{EnumV, StructV, Type};
use crate::ir::{Callee, Ins, Label, Mark, Pred, Rt, Ty, Val};
use crate::lowering::{
    any_heap, at_entry, begin, call, drop_enum, drop_struct, drop_variants, drop_words, emit,
    field_types, label, pass, reg, release, Gen,
};
use crate::machine::{
    calls_rt, comes_to, ends, lemma_later, lemma_place, lemma_ticks_sum, started, tick, ticks,
    Event, Final, Machine, Running, World,
};

verus! {

/// The releases of the heap words among the first `n` of a block at `p`, from
/// word `at` on.
pub open spec fn word_releases(
    mem: Map<int, int>,
    p: int,
    at: nat,
    types: Seq<Type>,
    n: nat,
) -> Seq<Event>
    decreases n,
{
    if n == 0 {
        Seq::empty()
    } else {
        let before = word_releases(mem, p, at, types, (n - 1) as nat);
        if types[n - 1].heap() {
            before.push(calls_rt(Rt::Release, seq![mem[p + 8 * (at + n - 1)]]))
        } else {
            before
        }
    }
}

/// Whether some code begins with `prefix`.
spec fn extends(code: Seq<Ins>, prefix: Seq<Ins>) -> bool {
    &&& prefix.len() <= code.len()
    &&& forall|i: int| 0 <= i < prefix.len() ==> #[trigger] code[i] == prefix[i]
}

/// A machine at `pc` with that much on its log; what stood in the first `kept`
/// registers is still there.
spec fn arrived(m: Machine, r: Running, pc: nat, log: Seq<Event>, kept: nat) -> bool {
    &&& m is On
    &&& m->On_0.pc == pc
    &&& m->On_0.mem == r.mem
    &&& m->On_0.log == log
    &&& m->On_0.passed == Seq::<int>::empty()
    &&& forall|i: int| 0 <= i < kept ==> #[trigger] m->On_0.regs[i] == r.regs[i]
}

proof fn lemma_release_emits(g: Gen, v: Val)
    ensures
        release(g, v).code == g.code.push(Ins::Arg(Ty::Ptr, v)).push(
            Ins::Call(Ty::Void, Callee::Runtime(Rt::Release), 1),
        ),
{
    reveal(call);
    let args = seq![(v, Ty::Ptr)];
    assert(args.drop_last() =~= Seq::empty());
    assert(pass(g, args.drop_last()) == g);
}

/// One heap word is released.
proof fn lemma_drop_word(code: Seq<Ins>, w: World, r: Running, before: Gen, p: int, word: nat)
    requires
        word <= i64::MAX,
        w.args == seq![p],
        r.pc == before.code.len(),
        r.passed == Seq::<int>::empty(),
        before.code.len() + 4 <= usize::MAX,
        ({
            let g1 = emit(before, Ins::Gep(Ty::I64, Val::Param(0), Val::Int(word as i64)));
            let g2 = emit(g1, Ins::Load(Ty::Ptr, reg(g1)));
            extends(code, release(g2, reg(g2)).code)
        }),
    ensures
        arrived(
            ticks(code, w, Machine::On(r), 4),
            r,
            before.code.len() + 4,
            r.log.push(calls_rt(Rt::Release, seq![r.mem[p + 8 * word]])),
            before.code.len(),
        ),
{
    let n = before.code.len();
    let g1 = emit(before, Ins::Gep(Ty::I64, Val::Param(0), Val::Int(word as i64)));
    let g2 = emit(g1, Ins::Load(Ty::Ptr, reg(g1)));
    lemma_release_emits(g2, reg(g2));
    let all = release(g2, reg(g2)).code;
    assert(code[n as int] == all[n as int]);
    assert(code[n as int + 1] == all[n as int + 1]);
    assert(code[n as int + 2] == all[n as int + 2]);
    assert(code[n as int + 3] == all[n as int + 3]);
    let v = r.mem[p + 8 * word];
    assert(Seq::<int>::empty().push(v) =~= seq![v]);
    reveal_with_fuel(ticks, 5);
}

/// The heap words are released one by one.
proof fn lemma_drop_words(
    code: Seq<Ins>,
    w: World,
    r: Running,
    g: Gen,
    p: int,
    at: nat,
    types: Seq<Type>,
    n: nat,
)
    requires
        n <= types.len(),
        at + types.len() <= i64::MAX,
        w.args == seq![p],
        r.pc == g.code.len(),
        r.passed == Seq::<int>::empty(),
        code.len() <= usize::MAX,
        extends(code, drop_words(g, at, types, n).code),
    ensures
        g.code.len() <= drop_words(g, at, types, n).code.len(),
        exists|k: nat|
            arrived(
                #[trigger] ticks(code, w, Machine::On(r), k),
                r,
                drop_words(g, at, types, n).code.len(),
                r.log + word_releases(r.mem, p, at, types, n),
                g.code.len(),
            ),
    decreases n,
{
    let m = Machine::On(r);
    if n == 0 {
        assert(r.log + word_releases(r.mem, p, at, types, n) =~= r.log);
        assert(arrived(ticks(code, w, m, 0), r, g.code.len(), r.log, g.code.len()));
    } else {
        let before = drop_words(g, at, types, (n - 1) as nat);
        let word = (at + n - 1) as nat;
        if types[n - 1].heap() {
            let g1 = emit(before, Ins::Gep(Ty::I64, Val::Param(0), Val::Int(word as i64)));
            let g2 = emit(g1, Ins::Load(Ty::Ptr, reg(g1)));
            lemma_release_emits(g2, reg(g2));
            let all = release(g2, reg(g2)).code;
            assert forall|i: int| 0 <= i < before.code.len() implies #[trigger] code[i]
                == before.code[i] by {
                assert(code[i] == all[i]);
            }
            lemma_drop_words(code, w, r, g, p, at, types, (n - 1) as nat);
            let log = r.log + word_releases(r.mem, p, at, types, (n - 1) as nat);
            let k = choose|k: nat|
                arrived(
                    #[trigger] ticks(code, w, m, k),
                    r,
                    before.code.len(),
                    log,
                    g.code.len(),
                );
            let r1 = ticks(code, w, m, k)->On_0;
            lemma_drop_word(code, w, r1, before, p, word);
            lemma_ticks_sum(code, w, m, k, 4);
            let e = calls_rt(Rt::Release, seq![r.mem[p + 8 * word]]);
            assert(r.log + word_releases(r.mem, p, at, types, n) =~= log.push(e));
            assert(arrived(
                ticks(code, w, m, k + 4),
                r,
                before.code.len() + 4,
                log.push(e),
                g.code.len(),
            ));
        } else {
            lemma_drop_words(code, w, r, g, p, at, types, (n - 1) as nat);
        }
    }
}

/// The destructor of a struct releases each heap field, in their order, and
/// nothing else.
pub proof fn law_struct_destructor_releases_fields(
    w: World,
    mem: Map<int, int>,
    p: int,
    def: StructV,
)
    requires
        w.args == seq![p],
        def.fields.len() <= i64::MAX,
        drop_struct(def).len() <= usize::MAX,
    ensures
        comes_to(
            drop_struct(def),
            w,
            mem,
            Final {
                mem,
                log: word_releases(mem, p, 0, field_types(def), def.fields.len()),
                result: None,
                trapped: false,
            },
        ),
{
    let code = drop_struct(def);
    let types = field_types(def);
    let g = at_entry(Seq::empty(), Seq::empty());
    let all = drop_words(g, 0, types, types.len());
    assert(code == all.code.push(Ins::RetVoid));
    assert(extends(code, all.code));
    let m = started(mem);
    let r = m->On_0;
    let r1 = Running { pc: 1, here: Label { mark: Mark::Entry, at: 0 }, ..r };
    lemma_words_keep(g, 0, types, types.len());
    assert(code[0] == g.code[0]);
    assert(tick(code, w, m) == Machine::On(r1));
    lemma_drop_words(code, w, r1, g, p, 0, types, types.len());
    let log = word_releases(mem, p, 0, types, types.len());
    assert(r1.log + log =~= log);
    let k = choose|k: nat|
        arrived(#[trigger] ticks(code, w, Machine::On(r1), k), r1, all.code.len(), log, 1);
    let m2 = ticks(code, w, Machine::On(r1), k);
    let f = Final { mem, log, result: None, trapped: false };
    reveal_with_fuel(ticks, 2);
    assert(ticks(code, w, m2, 1) == Machine::Done(f));
    lemma_later(code, w, Machine::On(r1), k, f);
    assert(ticks(code, w, m, 1) == Machine::On(r1));
    lemma_later(code, w, m, 1, f);
}

// ----- enums ------------------------------------------------------------------------------------
/// Whether every label stands once, and is numbered by a place before it.
spec fn distinct(code: Seq<Ins>) -> bool {
    &&& forall|i: int, j: int|
        0 <= i < code.len() && 0 <= j < code.len() && (#[trigger] code[i]) is Label && code[i]
            == #[trigger] code[j] ==> i == j
    &&& forall|i: int|
        0 <= i < code.len() && (#[trigger] code[i]) is Label ==> code[i]->Label_0.at < code.len()
}

/// Releases of words go behind what is there, and hold no label.
proof fn lemma_words_keep(g: Gen, at: nat, types: Seq<Type>, n: nat)
    ensures
        extends(drop_words(g, at, types, n).code, g.code),
        forall|i: int|
            g.code.len() <= i < drop_words(g, at, types, n).code.len() ==> !((
            #[trigger] drop_words(g, at, types, n).code[i]) is Label),
    decreases n,
{
    if n > 0 {
        lemma_words_keep(g, at, types, (n - 1) as nat);
        let before = drop_words(g, at, types, (n - 1) as nat);
        if types[n - 1].heap() {
            let word = (at + n - 1) as nat;
            let g1 = emit(before, Ins::Gep(Ty::I64, Val::Param(0), Val::Int(word as i64)));
            let g2 = emit(g1, Ins::Load(Ty::Ptr, reg(g1)));
            lemma_release_emits(g2, reg(g2));
            let all = release(g2, reg(g2)).code;
            assert(extends(all, before.code));
            assert forall|i: int| 0 <= i < g.code.len() implies #[trigger] all[i]
                == g.code[i] by {
                assert(all[i] == before.code[i]);
            }
        }
    }
}

/// The code for one variant that owns heap data.
spec fn dropped_variant(before: Gen, tag: Val, types: Seq<Type>, n: nat) -> Gen {
    let g1 = emit(before, Ins::Cmp(Pred::Eq, Ty::I64, tag, Val::Int(n as i64)));
    let here = label(g1, Mark::Variant);
    let next = label(g1, Mark::NextVariant);
    let g2 = begin(emit(g1, Ins::CondBr(reg(g1), here, next)), here);
    let g3 = emit(drop_words(g2, 1, types, types.len()), Ins::RetVoid);
    begin(g3, next)
}

/// What stands where in the code for one variant.
proof fn lemma_variant_code(before: Gen, tag: Val, types: Seq<Type>, n: nat)
    requires
        dropped_variant(before, tag, types, n).code.len() <= usize::MAX,
    ensures
        ({
            let b = before.code.len();
            let all = dropped_variant(before, tag, types, n).code;
            let here = Label { mark: Mark::Variant, at: (b + 1) as usize };
            let next = Label { mark: Mark::NextVariant, at: (b + 1) as usize };
            &&& b + 5 <= all.len()
            &&& extends(all, before.code)
            &&& all[b as int] == Ins::Cmp(Pred::Eq, Ty::I64, tag, Val::Int(n as i64))
            &&& all[b as int + 1] == Ins::CondBr(Val::Reg(b as usize), here, next)
            &&& all[b as int + 2] == Ins::Label(here)
            &&& all[all.len() - 2] is RetVoid
            &&& all[all.len() - 1] == Ins::Label(next)
            &&& forall|i: int| b + 3 <= i < all.len() - 1 ==> !((#[trigger] all[i]) is Label)
        }),
{
    let b = before.code.len();
    let g1 = emit(before, Ins::Cmp(Pred::Eq, Ty::I64, tag, Val::Int(n as i64)));
    let here = label(g1, Mark::Variant);
    let next = label(g1, Mark::NextVariant);
    let g2 = begin(emit(g1, Ins::CondBr(reg(g1), here, next)), here);
    lemma_words_keep(g2, 1, types, types.len());
    let body = drop_words(g2, 1, types, types.len());
    let all = dropped_variant(before, tag, types, n).code;
    assert(all == body.code.push(Ins::RetVoid).push(Ins::Label(next)));
    assert forall|i: int| 0 <= i < g2.code.len() implies all[i] == g2.code[i] by {
        assert(body.code[i] == g2.code[i]);
    }
    assert forall|i: int| 0 <= i < b implies #[trigger] all[i] == before.code[i] by {
        assert(all[i] == g2.code[i]);
    }
    assert forall|i: int| b + 3 <= i < all.len() - 1 implies !((#[trigger] all[i]) is Label) by {
        if i < body.code.len() {
            assert(all[i] == body.code[i]);
        }
    }
}

/// Labels stay distinct.
proof fn lemma_variants_distinct(g: Gen, def: EnumV, tag: Val, n: nat)
    requires
        n <= def.variants.len(),
        distinct(g.code),
        drop_variants(g, def, tag, n).code.len() <= usize::MAX,
    ensures
        extends(drop_variants(g, def, tag, n).code, g.code),
        distinct(drop_variants(g, def, tag, n).code),
    decreases n,
{
    if n > 0 {
        let before = drop_variants(g, def, tag, (n - 1) as nat);
        let types = def.variants[n - 1].fields;
        if any_heap(types) {
            let all = drop_variants(g, def, tag, n).code;
            assert(drop_variants(g, def, tag, n) == dropped_variant(
                before,
                tag,
                types,
                (n - 1) as nat,
            ));
            lemma_variant_code(before, tag, types, (n - 1) as nat);
            lemma_variants_distinct(g, def, tag, (n - 1) as nat);
            let b = before.code.len();
            assert forall|i: int| 0 <= i < g.code.len() implies #[trigger] all[i]
                == g.code[i] by {
                assert(all[i] == before.code[i]);
            }
            assert forall|i: int| 0 <= i < all.len() && (#[trigger] all[i]) is Label implies i < b
                || i == b + 2 || i == all.len() - 1 by {}
            assert forall|i: int| 0 <= i < all.len() && (#[trigger] all[i]) is Label implies
                all[i]->Label_0.at < all.len() && (i < b ==> all[i]->Label_0.at < b) by {
                if i < b {
                    assert(all[i] == before.code[i]);
                }
            }
            assert forall|i: int, j: int|
                0 <= i < all.len() && 0 <= j < all.len() && (#[trigger] all[i]) is Label && all[i]
                    == #[trigger] all[j] implies i == j by {
                if i < b && j < b {
                    assert(all[i] == before.code[i]);
                    assert(all[j] == before.code[j]);
                }
            }
        } else {
            lemma_variants_distinct(g, def, tag, (n - 1) as nat);
        }
    }
}

/// One variant: where the tag is its number, its heap payload is released and
/// that is all; else the next one is looked at.
proof fn lemma_drop_variant(
    code: Seq<Ins>,
    w: World,
    r: Running,
    before: Gen,
    t: nat,
    types: Seq<Type>,
    n: nat,
    p: int,
)
    requires
        w.args == seq![p],
        n <= i64::MAX,
        types.len() < i64::MAX,
        t < before.code.len(),
        r.pc == before.code.len(),
        r.passed == Seq::<int>::empty(),
        code.len() <= usize::MAX,
        distinct(code),
        extends(code, dropped_variant(before, Val::Reg(t as usize), types, n).code),
    ensures
        r.regs[t as int] == n ==> ends(
            code,
            w,
            Machine::On(r),
            Final {
                mem: r.mem,
                log: r.log + word_releases(r.mem, p, 1, types, types.len()),
                result: None,
                trapped: false,
            },
        ),
        r.regs[t as int] != n ==> exists|k: nat|
            arrived(
                #[trigger] ticks(code, w, Machine::On(r), k),
                r,
                dropped_variant(before, Val::Reg(t as usize), types, n).code.len(),
                r.log,
                before.code.len(),
            ),
{
    let tag = Val::Reg(t as usize);
    let b = before.code.len();
    let all = dropped_variant(before, tag, types, n).code;
    lemma_variant_code(before, tag, types, n);
    let here = Label { mark: Mark::Variant, at: (b + 1) as usize };
    let next = Label { mark: Mark::NextVariant, at: (b + 1) as usize };
    let last = (all.len() - 1) as nat;
    assert(code[b as int] == all[b as int]);
    assert(code[b as int + 1] == all[b as int + 1]);
    assert(code[b as int + 2] == all[b as int + 2]);
    assert(code[last as int] == all[last as int]);
    assert(code[last - 1] == all[last - 1]);
    lemma_place(code, here, b as int + 2);
    lemma_place(code, next, last as int);
    let m = Machine::On(r);
    reveal_with_fuel(ticks, 4);
    let m1 = ticks(code, w, m, 3);
    if r.regs[t as int] == n {
        assert(arrived(m1, r, b + 3, r.log, b));
        let g1 = emit(before, Ins::Cmp(Pred::Eq, Ty::I64, tag, Val::Int(n as i64)));
        let g2 = begin(emit(g1, Ins::CondBr(reg(g1), here, next)), here);
        let body = drop_words(g2, 1, types, types.len());
        assert(all == body.code.push(Ins::RetVoid).push(Ins::Label(next)));
        assert forall|i: int| 0 <= i < body.code.len() implies #[trigger] code[i]
            == body.code[i] by {
            assert(code[i] == all[i]);
        }
        let r1 = m1->On_0;
        lemma_drop_words(code, w, r1, g2, p, 1, types, types.len());
        let log = r.log + word_releases(r.mem, p, 1, types, types.len());
        let k = choose|k: nat|
            arrived(#[trigger] ticks(code, w, m1, k), r1, body.code.len(), log, g2.code.len());
        let m2 = ticks(code, w, m1, k);
        let f = Final { mem: r.mem, log, result: None, trapped: false };
        assert(ticks(code, w, m2, 1) == Machine::Done(f));
        lemma_later(code, w, m1, k, f);
        lemma_later(code, w, m, 3, f);
    } else {
        assert(arrived(m1, r, all.len(), r.log, b));
    }
}

/// The variants are looked at one by one, up to the one whose number the tag
/// is.
proof fn lemma_drop_variants(
    code: Seq<Ins>,
    w: World,
    r: Running,
    g: Gen,
    def: EnumV,
    t: nat,
    n: nat,
    p: int,
)
    requires
        w.args == seq![p],
        n <= def.variants.len() <= i64::MAX,
        forall|i: int| 0 <= i < def.variants.len() ==> (#[trigger] def.variants[i]).fields.len()
            < i64::MAX,
        t < g.code.len(),
        r.pc == g.code.len(),
        r.passed == Seq::<int>::empty(),
        code.len() <= usize::MAX,
        distinct(g.code),
        distinct(code),
        extends(code, drop_variants(g, def, Val::Reg(t as usize), n).code),
    ensures
        ({
            let tag = r.regs[t as int];
            if 0 <= tag < n && any_heap(def.variants[tag].fields) {
                ends(
                    code,
                    w,
                    Machine::On(r),
                    Final {
                        mem: r.mem,
                        log: r.log + word_releases(
                            r.mem,
                            p,
                            1,
                            def.variants[tag].fields,
                            def.variants[tag].fields.len(),
                        ),
                        result: None,
                        trapped: false,
                    },
                )
            } else {
                exists|k: nat|
                    arrived(
                        #[trigger] ticks(code, w, Machine::On(r), k),
                        r,
                        drop_variants(g, def, Val::Reg(t as usize), n).code.len(),
                        r.log,
                        g.code.len(),
                    )
            }
        }),
    decreases n,
{
    let m = Machine::On(r);
    let reg_t = Val::Reg(t as usize);
    if n == 0 {
        assert(arrived(ticks(code, w, m, 0), r, g.code.len(), r.log, g.code.len()));
    } else {
        let n1 = (n - 1) as nat;
        let before = drop_variants(g, def, reg_t, n1);
        let types = def.variants[n - 1].fields;
        let tag = r.regs[t as int];
        if any_heap(types) {
            let all = dropped_variant(before, reg_t, types, n1).code;
            assert(all == drop_variants(g, def, reg_t, n).code);
            lemma_variant_code(before, reg_t, types, n1);
            assert forall|i: int| 0 <= i < before.code.len() implies #[trigger] code[i]
                == before.code[i] by {
                assert(code[i] == all[i]);
                assert(all[i] == before.code[i]);
            }
            lemma_variants_distinct(g, def, reg_t, n1);
            lemma_drop_variants(code, w, r, g, def, t, n1, p);
            if !(0 <= tag < n1 && any_heap(def.variants[tag].fields)) {
                let k = choose|k: nat|
                    arrived(
                        #[trigger] ticks(code, w, m, k),
                        r,
                        before.code.len(),
                        r.log,
                        g.code.len(),
                    );
                let m1 = ticks(code, w, m, k);
                let r1 = m1->On_0;
                assert(r1.regs[t as int] == tag);
                lemma_drop_variant(code, w, r1, before, t, types, n1, p);
                if tag == n1 {
                    let f = Final {
                        mem: r.mem,
                        log: r.log + word_releases(r.mem, p, 1, types, types.len()),
                        result: None,
                        trapped: false,
                    };
                    lemma_later(code, w, m, k, f);
                } else {
                    let j = choose|j: nat|
                        arrived(
                            #[trigger] ticks(code, w, m1, j),
                            r1,
                            all.len(),
                            r.log,
                            before.code.len(),
                        );
                    lemma_ticks_sum(code, w, m, k, j);
                    assert(arrived(
                        ticks(code, w, m, k + j),
                        r,
                        all.len(),
                        r.log,
                        g.code.len(),
                    ));
                }
            }
        } else {
            lemma_drop_variants(code, w, r, g, def, t, n1, p);
        }
    }
}

/// Without heap words nothing is released.
proof fn lemma_no_releases(mem: Map<int, int>, p: int, at: nat, types: Seq<Type>, n: nat)
    requires
        n <= types.len(),
        !any_heap(types),
    ensures
        word_releases(mem, p, at, types, n) == Seq::<Event>::empty(),
    decreases n,
{
    if n > 0 {
        lemma_no_releases(mem, p, at, types, (n - 1) as nat);
    }
}

/// What the destructor of an enum releases: the heap payload of the live
/// variant, which stands behind the tag.
pub open spec fn payload_releases(mem: Map<int, int>, p: int, def: EnumV) -> Seq<Event> {
    let tag = mem[p];
    if 0 <= tag < def.variants.len() {
        let types = def.variants[tag].fields;
        word_releases(mem, p, 1, types, types.len())
    } else {
        Seq::empty()
    }
}

/// The destructor of an enum looks at the tag and releases the heap payload of
/// the live variant, and nothing else.
pub proof fn law_enum_destructor_releases_payload(
    w: World,
    mem: Map<int, int>,
    p: int,
    def: EnumV,
)
    requires
        w.args == seq![p],
        def.variants.len() <= i64::MAX,
        forall|i: int| 0 <= i < def.variants.len() ==> (#[trigger] def.variants[i]).fields.len()
            < i64::MAX,
        drop_enum(def).len() <= usize::MAX,
    ensures
        comes_to(
            drop_enum(def),
            w,
            mem,
            Final { mem, log: payload_releases(mem, p, def), result: None, trapped: false },
        ),
{
    let code = drop_enum(def);
    let start = at_entry(Seq::empty(), Seq::empty());
    let g = emit(start, Ins::Load(Ty::I64, Val::Param(0)));
    let n = def.variants.len();
    let all = drop_variants(g, def, reg(g), n);
    assert(code == all.code.push(Ins::RetVoid));
    assert(distinct(g.code));
    lemma_variants_distinct(g, def, reg(g), n);
    assert forall|i: int, j: int|
        0 <= i < code.len() && 0 <= j < code.len() && (#[trigger] code[i]) is Label && code[i]
            == #[trigger] code[j] implies i == j by {
        assert(code[i] == all.code[i]);
        assert(code[j] == all.code[j]);
    }
    assert forall|i: int| 0 <= i < code.len() && (#[trigger] code[i]) is Label implies
        code[i]->Label_0.at < code.len() by {
        assert(code[i] == all.code[i]);
    }
    assert(distinct(code));
    assert(code[0] == all.code[0] && all.code[0] == g.code[0]);
    assert(code[1] == all.code[1] && all.code[1] == g.code[1]);
    let m = started(mem);
    reveal_with_fuel(ticks, 3);
    let m1 = ticks(code, w, m, 2);
    let r1 = m1->On_0;
    assert(m1 is On && r1.pc == 2 && r1.regs[1] == mem[p] && r1.mem == mem && r1.log
        == Seq::<Event>::empty() && r1.passed == Seq::<int>::empty());
    lemma_drop_variants(code, w, r1, g, def, 1, n, p);
    let tag = mem[p];
    let f = Final { mem, log: payload_releases(mem, p, def), result: None, trapped: false };
    if 0 <= tag < n && any_heap(def.variants[tag].fields) {
        assert(r1.log + payload_releases(mem, p, def) =~= payload_releases(mem, p, def));
    } else {
        if 0 <= tag < n {
            let types = def.variants[tag].fields;
            lemma_no_releases(mem, p, 1, types, types.len());
        }
        let k = choose|k: nat|
            arrived(#[trigger] ticks(code, w, m1, k), r1, all.code.len(), r1.log, 2);
        let m2 = ticks(code, w, m1, k);
        assert(ticks(code, w, m2, 1) == Machine::Done(f));
        lemma_later(code, w, m1, k, f);
    }
    lemma_later(code, w, m, 2, f);
}

} // verus!
