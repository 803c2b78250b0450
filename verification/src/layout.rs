//! Blank lines and comments.
use vstd::prelude::*;
use crate::diag::Fault;
use crate::lexer::{
    after_lines, blank_line, closed_to, dedents, depth_after, indented, last_line, lexed, line_step,
    line_tokens, mark_token, next_token, scanned, skip_blank, spaces_end, LexState, Scan, TokV,
    TokenV,
};
use crate::text::{lemma_line_end_bounds, line_end, lines, lines_from, strip_cr};

verus! {

/// The kinds of some tokens.
pub open spec fn kinds(toks: Seq<TokenV>) -> Seq<TokV> {
    Seq::new(toks.len(), |i: int| toks[i].kind)
}

/// Whether two texts are lexed to tokens of the same kinds, or both refused.
pub open spec fn same_kinds(
    a: Result<Seq<TokenV>, Fault>,
    b: Result<Seq<TokenV>, Fault>,
) -> bool {
    match (a, b) {
        (Ok(s), Ok(t)) => kinds(s) == kinds(t),
        (Err(_), Err(_)) => true,
        _ => false,
    }
}

/// Whether the scanner stands at the same place, line numbers aside.
spec fn alike(a: LexState, b: LexState) -> bool {
    &&& kinds(a.toks) == kinds(b.toks)
    &&& a.indents == b.indents
    &&& a.depth == b.depth
}

spec fn both_alike(a: Result<LexState, Fault>, b: Result<LexState, Fault>) -> bool {
    match (a, b) {
        (Ok(s), Ok(t)) => alike(s, t),
        (Err(_), Err(_)) => true,
        _ => false,
    }
}

proof fn lemma_kinds_concat(a: Seq<TokenV>, b: Seq<TokenV>)
    ensures
        kinds(a + b) == kinds(a) + kinds(b),
{
    assert(kinds(a + b) =~= kinds(a) + kinds(b));
}

proof fn lemma_kinds_push(a: Seq<TokenV>, t: TokenV)
    ensures
        kinds(a.push(t)) == kinds(a).push(t.kind),
{
    assert(kinds(a.push(t)) =~= kinds(a).push(t.kind));
}

/// Line numbers are no matter of the tokens of a line.
proof fn lemma_line_kinds(line: Seq<char>, m: usize, n: usize, i: int)
    ensures
        same_kinds(line_tokens(line, m, i), line_tokens(line, n, i)),
    decreases line.len() - i,
{
    if let Scan::Found(k, a, b) = next_token(line, i) {
        if i < b <= line.len() {
            lemma_line_kinds(line, m, n, b);
            if let Ok(s) = line_tokens(line, m, b) {
                let t = line_tokens(line, n, b)->Ok_0;
                let x = line_tokens(line, m, i)->Ok_0;
                let y = line_tokens(line, n, i)->Ok_0;
                lemma_kinds_concat(seq![x[0]], s);
                lemma_kinds_concat(seq![y[0]], t);
                assert(kinds(seq![x[0]]) =~= kinds(seq![y[0]]));
            }
        }
    }
}

/// Brackets are counted by kinds.
proof fn lemma_depth_kinds(depth: nat, a: Seq<TokenV>, b: Seq<TokenV>)
    requires
        kinds(a) == kinds(b),
    ensures
        depth_after(depth, a) == depth_after(depth, b),
    decreases a.len(),
{
    assert(kinds(a).len() == a.len() && kinds(b).len() == b.len());
    if a.len() > 0 {
        assert(kinds(a).drop_last() =~= kinds(a.drop_last()));
        assert(kinds(b).drop_last() =~= kinds(b.drop_last()));
        assert(kinds(a)[a.len() - 1] == kinds(b)[b.len() - 1]);
        assert(a.last().kind == b.last().kind);
        lemma_depth_kinds(depth, a.drop_last(), b.drop_last());
    }
}

proof fn lemma_scanned(a: LexState, b: LexState, line: Seq<char>, m: usize, n: usize)
    requires
        alike(a, b),
    ensures
        both_alike(scanned(a, line, m), scanned(b, line, n)),
{
    lemma_line_kinds(line, m, n, 0);
    if let Ok(s) = line_tokens(line, m, 0) {
        let t = line_tokens(line, n, 0)->Ok_0;
        assert(kinds(s).len() == kinds(t).len());
        lemma_depth_kinds(a.depth, s, t);
        lemma_kinds_concat(a.toks, s);
        lemma_kinds_concat(b.toks, t);
        lemma_kinds_push(a.toks + s, mark_token(TokV::Newline, m));
        lemma_kinds_push(b.toks + t, mark_token(TokV::Newline, n));
    }
}

/// A line does the same to what is alike.
proof fn lemma_step(a: LexState, b: LexState, line: Seq<char>, m: usize, n: usize)
    requires
        alike(a, b),
    ensures
        both_alike(line_step(a, line, m), line_step(b, line, n)),
{
    lemma_scanned(a, b, line, m, n);
    let indent = spaces_end(line, 0) as usize;
    let rest = closed_to(a.indents, indent);
    let gone = (a.indents.len() - rest.len()) as nat;
    lemma_kinds_push(a.toks, mark_token(TokV::Indent, m));
    lemma_kinds_push(b.toks, mark_token(TokV::Indent, n));
    lemma_kinds_concat(a.toks, dedents(gone, m));
    lemma_kinds_concat(b.toks, dedents(gone, n));
    assert(kinds(dedents(gone, m)) =~= kinds(dedents(gone, n)));
    if let Ok(a1) = indented(a, line, m) {
        lemma_scanned(a1, indented(b, line, n)->Ok_0, line, m, n);
    }
}

proof fn lemma_skip_spaces(line: Seq<char>, i: int)
    requires
        0 <= i,
        ({
            let n = spaces_end(line, i);
            n >= line.len() || line[n] == '#'
        }),
    ensures
        skip_blank(line, i) == line.len(),
    decreases line.len() - i,
{
    if i < line.len() && line[i] == ' ' {
        lemma_skip_spaces(line, i + 1);
    }
}

/// A blank line leaves the scanner where it stands, inside brackets or not.
proof fn lemma_blank(st: LexState, line: Seq<char>, no: usize)
    requires
        blank_line(line),
    ensures
        line_step(st, line, no) == Ok::<LexState, Fault>(st),
{
    lemma_skip_spaces(line, 0);
    let none = Seq::<TokenV>::empty();
    assert(line_tokens(line, no, 0) == Ok::<Seq<TokenV>, Fault>(none));
    assert(st.toks + none =~= st.toks);
    if st.depth > 0 {
        assert(scanned(st, line, no)->Ok_0 =~= st);
    }
}

/// The first lines are the same.
proof fn lemma_before(all: Seq<Seq<char>>, more: Seq<Seq<char>>, n: nat)
    requires
        n <= all.len(),
        n <= more.len(),
        forall|i: int| 0 <= i < n ==> #[trigger] all[i] == more[i],
    ensures
        after_lines(all, n) == after_lines(more, n),
    decreases n,
{
    if n > 0 {
        lemma_before(all, more, (n - 1) as nat);
        assert(all[n - 1] == more[n - 1]);
    }
}

/// The lines behind a blank one.
proof fn lemma_behind(all: Seq<Seq<char>>, more: Seq<Seq<char>>, k: nat, n: nat)
    requires
        k <= n <= all.len(),
        more.len() == all.len() + 1,
        blank_line(more[k as int]),
        forall|i: int| 0 <= i < k ==> #[trigger] all[i] == more[i],
        forall|i: int| k <= i < all.len() ==> #[trigger] all[i] == more[i + 1],
    ensures
        both_alike(after_lines(all, n), after_lines(more, n + 1)),
    decreases n,
{
    if n == k {
        lemma_before(all, more, n);
        if let Ok(st) = after_lines(more, n) {
            lemma_blank(st, more[k as int], (n + 1) as usize);
        }
    } else {
        lemma_behind(all, more, k, (n - 1) as nat);
        assert(all[n - 1] == more[n as int]);
        if let Ok(a) = after_lines(all, (n - 1) as nat) {
            let b = after_lines(more, n)->Ok_0;
            lemma_step(a, b, all[n - 1], n as usize, (n + 1) as usize);
        }
    }
}

/// Blank lines and comments do not count: a text that has one line of spaces,
/// or of spaces and a comment, more than another, before, between or behind its
/// lines, is lexed to tokens of the same kinds, or refused where the other is.
pub proof fn law_blank_lines_do_not_count(source: Seq<char>, longer: Seq<char>, k: nat)
    requires
        k <= lines(source).len(),
        lines(longer).len() == lines(source).len() + 1,
        lines(longer).take(k as int) == lines(source).take(k as int),
        blank_line(lines(longer)[k as int]),
        lines(longer).skip(k as int + 1) == lines(source).skip(k as int),
    ensures
        same_kinds(lexed(source), lexed(longer)),
{
    let all = lines(source);
    let more = lines(longer);
    let n = all.len();
    assert forall|i: int| 0 <= i < k implies #[trigger] all[i] == more[i] by {
        assert(all.take(k as int)[i] == more.take(k as int)[i]);
    }
    assert forall|i: int| k <= i < n implies #[trigger] all[i] == more[i + 1] by {
        assert(all.skip(k as int)[i - k] == more.skip(k as int + 1)[i - k]);
    }
    lemma_behind(all, more, k, n);
    if let Ok(a) = after_lines(all, n) {
        let b = after_lines(more, n + 1)->Ok_0;
        let d = (a.indents.len() - 1) as nat;
        let x = dedents(d, last_line(all));
        let y = dedents(d, last_line(more));
        lemma_kinds_concat(a.toks, x);
        lemma_kinds_concat(b.toks, y);
        assert(kinds(x) =~= kinds(y));
        lemma_kinds_push(a.toks + x, mark_token(TokV::Eof, last_line(all)));
        lemma_kinds_push(b.toks + y, mark_token(TokV::Eof, last_line(more)));
    }
}

// ----- lines of a text --------------------------------------------------------------------------
proof fn lemma_end_in(a: Seq<char>, b: Seq<char>, i: int)
    requires
        0 <= i < a.len(),
        a.last() == '\n',
    ensures
        line_end(a, i) < a.len(),
        line_end(a + b, i) == line_end(a, i),
    decreases a.len() - i,
{
    assert((a + b)[i] == a[i]);
    if a[i] != '\n' {
        lemma_end_in(a, b, i + 1);
    }
}

proof fn lemma_end_behind(a: Seq<char>, b: Seq<char>, i: int)
    requires
        0 <= i,
    ensures
        line_end(a + b, a.len() + i) == a.len() + line_end(b, i),
    decreases b.len() - i,
{
    if i < b.len() {
        assert((a + b)[a.len() + i] == b[i]);
        if b[i] != '\n' {
            lemma_end_behind(a, b, i + 1);
        }
    }
}

proof fn lemma_lines_behind(a: Seq<char>, b: Seq<char>, i: int)
    requires
        0 <= i,
    ensures
        lines_from(a + b, a.len() + i) == lines_from(b, i),
    decreases b.len() - i,
{
    if i < b.len() {
        lemma_end_behind(a, b, i);
        lemma_line_end_bounds(b, i);
        let e = line_end(b, i);
        assert((a + b).subrange(a.len() + i, a.len() + e) =~= b.subrange(i, e));
        if e < b.len() {
            lemma_lines_behind(a, b, e + 1);
        }
    }
}

/// The lines of a text that follows whole lines.
proof fn lemma_lines_concat(a: Seq<char>, b: Seq<char>, i: int)
    requires
        0 <= i <= a.len(),
        a.len() > 0 ==> a.last() == '\n',
    ensures
        lines_from(a + b, i) == lines_from(a, i) + lines_from(b, 0),
    decreases a.len() - i,
{
    if i == a.len() {
        lemma_lines_behind(a, b, 0);
        assert(lines_from(a, i) + lines_from(b, 0) =~= lines_from(b, 0));
    } else {
        lemma_end_in(a, b, i);
        lemma_line_end_bounds(a, i);
        let e = line_end(a, i);
        assert((a + b).subrange(i, e) =~= a.subrange(i, e));
        lemma_lines_concat(a, b, e + 1);
        let head = seq![strip_cr(a.subrange(i, e))];
        assert(head + (lines_from(a, e + 1) + lines_from(b, 0)) =~= head + lines_from(a, e + 1)
            + lines_from(b, 0));
    }
}

/// One line with its newline.
proof fn lemma_one_line(line: Seq<char>)
    requires
        !line.contains('\n'),
    ensures
        lines(line.push('\n')) == seq![strip_cr(line)],
{
    let text = line.push('\n');
    lemma_end_of(line, 0);
    assert(text.subrange(0, line.len() as int) =~= line);
    assert(lines_from(text, text.len() as int) =~= Seq::empty());
    assert(lines(text) =~= seq![strip_cr(line)]);
}

proof fn lemma_end_of(line: Seq<char>, i: int)
    requires
        !line.contains('\n'),
        0 <= i <= line.len(),
    ensures
        line_end(line.push('\n'), i) == line.len(),
    decreases line.len() - i,
{
    if i < line.len() {
        assert(line.contains(line[i]));
        lemma_end_of(line, i + 1);
    }
}

/// The same of a text written out: a line of spaces, or of spaces and a comment,
/// put in front of any line of it or behind its last newline changes no kinds.
pub proof fn law_blank_text_does_not_count(before: Seq<char>, blank: Seq<char>, after: Seq<char>)
    requires
        before.len() > 0 ==> before.last() == '\n',
        !blank.contains('\n'),
        blank_line(strip_cr(blank)),
    ensures
        same_kinds(lexed(before + after), lexed(before + (blank.push('\n') + after))),
{
    let one = blank.push('\n');
    lemma_lines_concat(before, after, 0);
    lemma_lines_concat(before, one + after, 0);
    lemma_lines_concat(one, after, 0);
    lemma_one_line(blank);
    let k = lines(before).len();
    let source = before + after;
    let longer = before + (one + after);
    let line = seq![strip_cr(blank)];
    assert(lines(longer) =~= lines(before) + (line + lines(after)));
    assert(lines(longer)[k as int] == line[0]);
    assert(lines(longer).take(k as int) =~= lines(source).take(k as int));
    assert(lines(longer).skip(k as int + 1) =~= lines(source).skip(k as int));
    law_blank_lines_do_not_count(source, longer, k);
}

} // verus!
