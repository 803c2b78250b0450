//! Where control goes in lowered conditionals and loops.
//!
//! Each law runs the branch that lowering puts behind a condition, and says whose
//! code control comes to.
use vstd::prelude::*;
use crate::ast::StmtV;
use crate::execution::begins;
use crate::flow::{closed_flow, has_block, lemma_block_extends, lemma_cond_extends};
use crate::ir::{Ins, Label, Mark};
use crate::lowering::{
    begin, branch_if_open, emit, label, low_block, low_cond, low_if, low_jump, low_while, Cx, Gen,
};
use crate::machine::{place, ticks, value, Machine, Running, World};

verus! {

/// Whether the code of a block begins at a position, and control goes on from its
/// end, if it is reached, to another.
pub open spec fn block_at(cx: Cx, code: Seq<Ins>, at: int, b: Seq<StmtV>, then_to: int) -> bool {
    exists|g: Gen| #[trigger] block_of(cx, code, g, b, then_to) && g.code.len() == at
}

/// Whether the code of a block stands behind that of `g`.
pub open spec fn block_of(cx: Cx, code: Seq<Ins>, g: Gen, b: Seq<StmtV>, then_to: int) -> bool {
    &&& begins(code, g)
    &&& low_block(cx, g, b) matches Ok(g1) && begins(code, g1) && (g1.open ==> goes(
        code,
        g1.code.len() as int,
        then_to,
    ))
}

/// Whether control goes from one position behind the beginning of the block at
/// another.
pub open spec fn goes(code: Seq<Ins>, from: int, to: int) -> bool {
    &&& 0 <= from < code.len()
    &&& code[from] matches Ins::Br(l) && place(code, l) == to - 1
}

/// A label that stands in code is found there.
proof fn lemma_place(code: Seq<Ins>, l: Label, at: int)
    requires
        closed_flow(code),
        0 <= at < code.len(),
        code[at] == Ins::Label(l),
    ensures
        place(code, l) == at,
{
    let k = place(code, l);
    assert(0 <= k < code.len() && code[k] == Ins::Label(l));
    if k < at {
        assert(code[k] is Label && code[at] is Label);
    } else if at < k {
        assert(code[at] is Label && code[k] is Label);
    }
}

proof fn lemma_shorter(code: Seq<Ins>, g: Gen, h: Gen)
    requires
        begins(code, h),
        g.code.len() <= h.code.len(),
        forall|i: int| 0 <= i < g.code.len() ==> (#[trigger] h.code[i]) == g.code[i],
    ensures
        begins(code, g),
{
}

/// A conditional runs its first block if its condition holds, and else its second
/// one, or nothing; from both control comes behind it.
pub proof fn law_conditions_choose(
    code: Seq<Ins>,
    w: World,
    r: Running,
    cx: Cx,
    g: Gen,
    s: StmtV,
)
    requires
        s is If,
        has_block(g.code, g.here),
        closed_flow(code),
        low_if(cx, g, s) matches Ok(g9) && begins(code, g9),
        r.pc == low_cond(cx, g, s->If_cond)->Ok_0.0.code.len(),
    ensures
        ({
            let c = value(w, r, low_cond(cx, g, s->If_cond)->Ok_0.1);
            let end = low_if(cx, g, s)->Ok_0.code.len() as int;
            let m = ticks(code, w, Machine::On(r), 2);
            &&& m is On && m->On_0.mem == r.mem && m->On_0.log == r.log
            &&& c != 0 ==> block_at(cx, code, m->On_0.pc, s->If_then_block, end)
            &&& c == 0 && s->If_else_block is Some ==> block_at(
                cx,
                code,
                m->On_0.pc,
                s->If_else_block->0,
                end,
            )
            &&& c == 0 && s->If_else_block is None ==> m->On_0.pc == end
        }),
{
    if let StmtV::If { cond, then_block, else_block } = s {
        let (g1, c) = low_cond(cx, g, cond)->Ok_0;
        let g9 = low_if(cx, g, s)->Ok_0;
        let yes = label(g1, Mark::Then);
        let out = label(g1, Mark::EndIf);
        let no = if else_block is Some {
            label(g1, Mark::Else)
        } else {
            out
        };
        let branch = Ins::CondBr(c, yes, no);
        let ga = begin(emit(g1, branch), yes);
        let n = r.pc;
        assert(ga.code[n] == branch && ga.code[n + 1] == Ins::Label(yes));
        lemma_block_extends(cx, ga, then_block);
        let g2 = low_block(cx, ga, then_block)->Ok_0;
        let g3 = branch_if_open(g2, out);
        reveal_with_fuel(ticks, 3);
        match else_block {
            None => {
                assert(g9 == begin(g3, out));
                let e = g3.code.len() as int;
                assert(g9.code[e] == Ins::Label(out));
                assert(g2.open ==> g9.code[g2.code.len() as int] == Ins::Br(out));
                lemma_shorter(code, g2, g9);
                lemma_shorter(code, ga, g2);
                lemma_place(code, out, e);
                lemma_place(code, yes, n + 1);
                assert(code[n] == branch);
                assert(block_of(cx, code, ga, then_block, e + 1));
            },
            Some(b) => {
                let gb = begin(g3, no);
                let e1 = g3.code.len() as int;
                assert(gb.code[e1] == Ins::Label(no));
                lemma_block_extends(cx, gb, b);
                let g4 = low_block(cx, gb, b)->Ok_0;
                let g5 = branch_if_open(g4, out);
                assert(g9 == begin(g5, out));
                let e = g5.code.len() as int;
                assert(g9.code[e] == Ins::Label(out));
                assert(g4.open ==> g9.code[g4.code.len() as int] == Ins::Br(out));
                lemma_shorter(code, g4, g9);
                lemma_shorter(code, gb, g4);
                assert(g2.open ==> gb.code[g2.code.len() as int] == Ins::Br(out));
                lemma_shorter(code, g2, gb);
                lemma_shorter(code, ga, g2);
                lemma_place(code, out, e);
                lemma_place(code, no, e1);
                lemma_place(code, yes, n + 1);
                assert(code[n] == branch);
                assert(block_of(cx, code, ga, then_block, e + 1));
                assert(block_of(cx, code, gb, b, e + 1));
            },
        }
    }
}

/// A `while` loop comes to its test first, runs its body as long as the condition
/// holds, and comes to the test again behind it; control comes behind the loop
/// once the condition does not hold.
pub proof fn law_conditions_repeat(
    code: Seq<Ins>,
    w: World,
    r: Running,
    cx: Cx,
    g: Gen,
    s: StmtV,
)
    requires
        s is While,
        has_block(g.code, g.here),
        closed_flow(code),
        low_while(cx, g, s) matches Ok(g9) && begins(code, g9),
        r.pc == low_cond(cx, at_test(g), s->While_cond)->Ok_0.0.code.len(),
    ensures
        goes(code, g.code.len() as int, at_test(g).code.len() as int),
        ({
            let c = value(w, r, low_cond(cx, at_test(g), s->While_cond)->Ok_0.1);
            let test = at_test(g).code.len() as int;
            let end = low_while(cx, g, s)->Ok_0.code.len() as int;
            let m = ticks(code, w, Machine::On(r), 2);
            &&& m is On && m->On_0.mem == r.mem && m->On_0.log == r.log
            &&& c != 0 ==> body_at(cx, code, m->On_0.pc, s->While_body, test, end)
            &&& c == 0 ==> m->On_0.pc == end
        }),
{
    if let StmtV::While { cond, body } = s {
        let test = label(g, Mark::LoopCond);
        let inside = label(g, Mark::LoopBody);
        let out = label(g, Mark::LoopEnd);
        let g0 = at_test(g);
        let t = g0.code.len() as int;
        assert(g0 == begin(emit(g, Ins::Br(test)), test));
        assert(g0.code[t - 1] == Ins::Label(test) && g0.code[t - 2] == Ins::Br(test));
        lemma_cond_extends(cx, g0, cond);
        let (g1, c) = low_cond(cx, g0, cond)->Ok_0;
        let branch = Ins::CondBr(c, inside, out);
        let ga = begin(emit(g1, branch), inside);
        let n = r.pc;
        assert(ga.code[n] == branch && ga.code[n + 1] == Ins::Label(inside));
        let gb = Gen { loops: ga.loops.push((test, out)), ..ga };
        lemma_block_extends(cx, gb, body);
        let g2 = low_block(cx, gb, body)->Ok_0;
        let g3 = branch_if_open(Gen { loops: g2.loops.drop_last(), ..g2 }, test);
        let g9 = low_while(cx, g, s)->Ok_0;
        assert(g9 == begin(g3, out));
        let e = g3.code.len() as int;
        assert(g9.code[e] == Ins::Label(out));
        assert(g2.open ==> g9.code[g2.code.len() as int] == Ins::Br(test));
        lemma_shorter(code, g2, g9);
        lemma_shorter(code, gb, g2);
        lemma_shorter(code, g0, ga);
        lemma_place(code, out, e);
        lemma_place(code, inside, n + 1);
        lemma_place(code, test, t - 1);
        assert(code[n] == branch);
        reveal_with_fuel(ticks, 3);
        assert(block_of(cx, code, gb, body, t));
        assert(leaves(code, gb, t, e + 1));
    }
}

/// Where the test of a `while` loop begins.
pub open spec fn at_test(g: Gen) -> Gen {
    begin(emit(g, Ins::Br(label(g, Mark::LoopCond))), label(g, Mark::LoopCond))
}

/// Whether `break` and `continue` in the innermost loop lead to those positions.
pub open spec fn leaves(code: Seq<Ins>, g: Gen, next: int, end: int) -> bool {
    &&& g.loops.len() > 0
    &&& place(code, g.loops.last().0) == next - 1
    &&& place(code, g.loops.last().1) == end - 1
}

/// Whether the body of a loop begins at a position: from its end, and by
/// `continue`, control goes to the next round, by `break` to the end of the loop.
pub open spec fn body_at(
    cx: Cx,
    code: Seq<Ins>,
    at: int,
    b: Seq<StmtV>,
    next: int,
    end: int,
) -> bool {
    exists|g: Gen| #[trigger]
        block_of(cx, code, g, b, next) && g.code.len() == at && leaves(code, g, next, end)
}

/// `break` goes to the end of the innermost loop, `continue` to its next round.
pub proof fn law_jumps_leave_the_innermost_loop(
    code: Seq<Ins>,
    g: Gen,
    out: bool,
    next: int,
    end: int,
)
    requires
        leaves(code, g, next, end),
        low_jump(g, out) matches Ok(g1) && begins(code, g1),
    ensures
        goes(
            code,
            g.code.len() as int,
            if out {
                end
            } else {
                next
            },
        ),
{
    reveal(low_jump);
    let n = g.code.len() as int;
    let g1 = low_jump(g, out)->Ok_0;
    assert(code[n] == g1.code[n]);
}

} // verus!
