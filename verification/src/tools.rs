//! Lines, search paths, version names and block names, from the other side.
use vstd::prelude::*;
use crate::constants::{law_naturals_are_numerals, numeral};
use crate::ir::{Label, Mark};
use crate::linker::{entry_end, joined_path, last_name, not_after, places};
use crate::printing::{label_text, mark_text};
use crate::text::{dec, line_end, lines, lines_from};

verus! {

// ----- lines -------------------------------------------------------------------------------------
/// Whether a line can stand in a text: it holds no end of a line.
pub open spec fn one_line(s: Seq<char>) -> bool {
    !s.contains('\n') && (s.len() > 0 ==> s.last() != '\r')
}

/// Lines one below the other, each with its end, from the `i`th on.
pub open spec fn below(ls: Seq<Seq<char>>, end: Seq<char>, i: int) -> Seq<char>
    decreases ls.len() - i,
{
    if i < 0 || i >= ls.len() {
        Seq::empty()
    } else {
        ls[i] + end + below(ls, end, i + 1)
    }
}

proof fn lemma_line_end(s: Seq<char>, i: int, e: int)
    requires
        0 <= i <= e < s.len(),
        s[e] == '\n',
        forall|j: int| i <= j < e ==> s[j] != '\n',
    ensures
        line_end(s, i) == e,
    decreases e - i,
{
    if i < e {
        lemma_line_end(s, i + 1, e);
    }
}

proof fn lemma_below(s: Seq<char>, p: int, ls: Seq<Seq<char>>, end: Seq<char>, i: int)
    requires
        forall|j: int| 0 <= j < ls.len() ==> one_line(#[trigger] ls[j]),
        end == seq!['\n'] || end == seq!['\r', '\n'],
        0 <= i <= ls.len(),
        0 <= p <= s.len(),
        s.skip(p) == below(ls, end, i),
    ensures
        lines_from(s, p) == ls.skip(i),
    decreases ls.len() - i,
{
    if i == ls.len() {
        assert(s.skip(p).len() == 0);
        assert(ls.skip(i) =~= Seq::empty());
    } else {
        let l = ls[i];
        let rest = below(ls, end, i + 1);
        let all = l + end + rest;
        let e = p + l.len() + end.len() - 1;
        let next = e + 1;
        assert forall|j: int| p <= j < p + all.len() implies s[j] == all[j - p] by {
            assert(s.skip(p)[j - p] == s[j]);
        }
        assert(s.len() == p + all.len());
        assert(s[e] == '\n');
        assert forall|j: int| p <= j < e implies s[j] != '\n' by {
            if j < p + l.len() {
                assert(all[j - p] == l[j - p]);
                assert(l.contains(l[j - p]));
            }
        }
        lemma_line_end(s, p, e);
        let line = s.subrange(p, e);
        if end.len() == 1 {
            assert(line =~= l);
        } else {
            assert(line =~= l.push('\r'));
            assert(line.drop_last() =~= l);
        }
        assert(s.skip(next) =~= rest);
        lemma_below(s, next, ls, end, i + 1);
        assert(ls.skip(i) =~= seq![l] + ls.skip(i + 1));
    }
}

/// A text is split where its lines end, whichever way they end.
pub proof fn law_lines_are_split(ls: Seq<Seq<char>>, returns: bool)
    requires
        forall|j: int| 0 <= j < ls.len() ==> one_line(#[trigger] ls[j]),
    ensures
        ({
            let end = if returns {
                seq!['\r', '\n']
            } else {
                seq!['\n']
            };
            lines(below(ls, end, 0)) == ls
        }),
{
    let end = if returns {
        seq!['\r', '\n']
    } else {
        seq!['\n']
    };
    let s = below(ls, end, 0);
    assert(s.skip(0) =~= s);
    lemma_below(s, 0, ls, end, 0);
    assert(ls.skip(0) =~= ls);
}

// ----- search paths ------------------------------------------------------------------------------
/// Directories with semicolons between them, from the `i`th on.
pub open spec fn path_of(dirs: Seq<Seq<char>>, i: int) -> Seq<char>
    decreases dirs.len() - i,
{
    if i < 0 || i >= dirs.len() {
        Seq::empty()
    } else if i + 1 == dirs.len() {
        dirs[i]
    } else {
        dirs[i] + seq![';'] + path_of(dirs, i + 1)
    }
}

proof fn lemma_entry(s: Seq<char>, i: int, e: int)
    requires
        0 <= i <= e <= s.len(),
        e == s.len() || s[e] == ';',
        forall|j: int| i <= j < e ==> s[j] != ';',
    ensures
        entry_end(s, i) == e,
    decreases e - i,
{
    if i < e {
        lemma_entry(s, i + 1, e);
    }
}

proof fn lemma_places(s: Seq<char>, p: int, name: Seq<char>, dirs: Seq<Seq<char>>, i: int)
    requires
        forall|j: int| 0 <= j < dirs.len() ==> !(#[trigger] dirs[j]).contains(';'),
        0 <= i < dirs.len(),
        0 <= p <= s.len(),
        s.skip(p) == path_of(dirs, i),
    ensures
        places(s, name, p) == Seq::new(
            (dirs.len() - i) as nat,
            |j: int| joined_path(dirs[i + j], name),
        ),
    decreases dirs.len() - i,
{
    let d = dirs[i];
    let e = p + d.len();
    let all = path_of(dirs, i);
    assert forall|j: int| p <= j < p + all.len() implies s[j] == all[j - p] by {
        assert(s.skip(p)[j - p] == s[j]);
    }
    assert(s.len() == p + all.len());
    assert forall|j: int| p <= j < e implies s[j] != ';' by {
        assert(all[j - p] == d[j - p]);
        assert(d.contains(d[j - p]));
    }
    lemma_entry(s, p, e);
    assert(s.subrange(p, e) =~= d);
    let found = Seq::new((dirs.len() - i) as nat, |j: int| joined_path(dirs[i + j], name));
    if i + 1 == dirs.len() {
        assert(found =~= seq![joined_path(d, name)] + Seq::empty());
    } else {
        assert(s.skip(e + 1) =~= path_of(dirs, i + 1));
        lemma_places(s, e + 1, name, dirs, i + 1);
        assert(found =~= seq![joined_path(d, name)] + places(s, name, e + 1));
    }
}

/// A program is looked for in each directory of a search path, in order.
pub proof fn law_every_directory_is_searched(dirs: Seq<Seq<char>>, name: Seq<char>)
    requires
        dirs.len() > 0,
        forall|j: int| 0 <= j < dirs.len() ==> !(#[trigger] dirs[j]).contains(';'),
    ensures
        places(path_of(dirs, 0), name, 0) == dirs.map_values(|d: Seq<char>| joined_path(d, name)),
{
    let s = path_of(dirs, 0);
    assert(s.skip(0) =~= s);
    lemma_places(s, 0, name, dirs, 0);
    assert(places(s, name, 0) =~= dirs.map_values(|d: Seq<char>| joined_path(d, name)));
}

// ----- version names -----------------------------------------------------------------------------
/// Whether two texts are alike in front of a position, and there the first has
/// ended or has the smaller character.
pub open spec fn smaller_at(a: Seq<char>, b: Seq<char>, i: int) -> bool {
    &&& 0 <= i <= a.len()
    &&& i <= b.len()
    &&& a.take(i) == b.take(i)
    &&& i == a.len() || (i < b.len() && (a[i] as u32) < (b[i] as u32))
}

/// Names are ordered as words in a dictionary are.
pub proof fn law_names_are_ordered(a: Seq<char>, b: Seq<char>)
    ensures
        not_after(a, b, 0) <==> exists|i: int| #[trigger] smaller_at(a, b, i),
{
    assert(a.take(0) =~= b.take(0));
    lemma_ordered(a, b, 0);
}

proof fn lemma_ordered(a: Seq<char>, b: Seq<char>, i: int)
    requires
        0 <= i <= a.len(),
        i <= b.len(),
        a.take(i) == b.take(i),
    ensures
        not_after(a, b, i) <==> exists|k: int| #[trigger] smaller_at(a, b, k),
    decreases a.len() - i,
{
    if i == a.len() {
        assert(smaller_at(a, b, i));
    } else if i < b.len() && a[i] == b[i] {
        assert(a.take(i + 1) =~= a.take(i).push(a[i]));
        assert(b.take(i + 1) =~= b.take(i).push(b[i]));
        lemma_ordered(a, b, i + 1);
    } else {
        if not_after(a, b, i) {
            assert(smaller_at(a, b, i));
        }
        if exists|k: int| #[trigger] smaller_at(a, b, k) {
            let k = choose|k: int| #[trigger] smaller_at(a, b, k);
            if k < i {
                assert(a.take(i)[k] == a[k] && b.take(i)[k] == b[k]);
            } else if k > i {
                assert(a.take(k)[i] == a[i] && b.take(k)[i] == b[i]);
            }
        }
    }
}

proof fn lemma_order_chains(a: Seq<char>, b: Seq<char>, c: Seq<char>, i: int)
    requires
        0 <= i,
        not_after(a, b, i),
        not_after(b, c, i),
    ensures
        not_after(a, c, i),
    decreases a.len() - i,
{
    if i < a.len() && i < b.len() && i < c.len() && a[i] == b[i] && b[i] == c[i] {
        lemma_order_chains(a, b, c, i + 1);
    }
}

proof fn lemma_codes(x: char, y: char)
    ensures
        x != y ==> x as u32 != y as u32,
{
}

proof fn lemma_order_is_total(a: Seq<char>, b: Seq<char>, i: int)
    requires
        0 <= i,
    ensures
        not_after(a, b, i) || not_after(b, a, i),
        a == b ==> not_after(a, b, i),
    decreases a.len() - i,
{
    if i < a.len() && i < b.len() {
        if a[i] == b[i] {
            lemma_order_is_total(a, b, i + 1);
        } else {
            lemma_codes(a[i], b[i]);
            assert(not_after(a, b, i) <==> (a[i] as u32) < (b[i] as u32));
            assert(not_after(b, a, i) <==> (b[i] as u32) < (a[i] as u32));
        }
    } else {
        assert(i >= a.len() ==> not_after(a, b, i));
        assert(i >= b.len() ==> not_after(b, a, i));
    }
}

/// The newest version is one that no other comes after.
pub proof fn law_no_version_is_newer(names: Seq<Seq<char>>, n: nat)
    requires
        n <= names.len(),
    ensures
        last_name(names, n) is Some <==> n > 0,
        last_name(names, n) matches Some(k) ==> 0 <= k < n && forall|i: int|
            0 <= i < n ==> not_after(#[trigger] names[i], names[k], 0),
    decreases n,
{
    if n > 0 {
        let m = (n - 1) as nat;
        law_no_version_is_newer(names, m);
        lemma_order_is_total(names[m as int], names[m as int], 0);
        if let Some(k) = last_name(names, m) {
            let now = names[m as int];
            lemma_order_is_total(names[k], now, 0);
            if not_after(names[k], now, 0) {
                assert forall|i: int| 0 <= i < n implies not_after(#[trigger] names[i], now, 0) by {
                    if i < m {
                        lemma_order_chains(names[i], names[k], now, 0);
                    }
                }
            }
        }
    }
}

// ----- block names -------------------------------------------------------------------------------
/// No two sorts of blocks are called alike, and none is called after a number.
proof fn lemma_marks(a: Mark, b: Mark)
    ensures
        mark_text(a) == mark_text(b) ==> a == b,
        mark_text(a).len() > 0,
        !('0' <= mark_text(a).last() <= '9'),
{
    reveal_strlit("entry");
    reveal_strlit("then");
    reveal_strlit("else");
    reveal_strlit("endif");
    reveal_strlit("loop.cond");
    reveal_strlit("loop.body");
    reveal_strlit("loop.end");
    reveal_strlit("for.cond");
    reveal_strlit("for.body");
    reveal_strlit("for.inc");
    reveal_strlit("for.end");
    reveal_strlit("foreach.cond");
    reveal_strlit("foreach.body");
    reveal_strlit("foreach.inc");
    reveal_strlit("foreach.end");
    reveal_strlit("sc.rhs");
    reveal_strlit("sc.end");
    reveal_strlit("match.arm");
    reveal_strlit("match.next");
    reveal_strlit("match.end");
    reveal_strlit("check");
    reveal_strlit("inc");
    reveal_strlit("dec");
    reveal_strlit("dead");
    reveal_strlit("owner");
    reveal_strlit("drop");
    reveal_strlit("arr");
    reveal_strlit("elem.loop");
    reveal_strlit("elem.body");
    reveal_strlit("free.data");
    reveal_strlit("free.block");
    reveal_strlit("store");
    reveal_strlit("done");
    reveal_strlit("copy");
    reveal_strlit("null");
    reveal_strlit("grow");
    reveal_strlit("retain");
    reveal_strlit("write");
    reveal_strlit("trap");
    reveal_strlit("load");
    reveal_strlit("swap");
    reveal_strlit("drop.variant");
    reveal_strlit("drop.next");
    let x = "entry"@;
    assert(x.len() == 5 && x[0] == 'e' && x[1] == 'n' && x[4] == 'y');
    let x = "then"@;
    assert(x.len() == 4 && x[0] == 't' && x[1] == 'h' && x[3] == 'n');
    let x = "else"@;
    assert(x.len() == 4 && x[0] == 'e' && x[1] == 'l' && x[3] == 'e');
    let x = "endif"@;
    assert(x.len() == 5 && x[0] == 'e' && x[1] == 'n' && x[4] == 'f');
    let x = "loop.cond"@;
    assert(x.len() == 9 && x[0] == 'l' && x[1] == 'o' && x[4] == '.' && x[8] == 'd');
    let x = "loop.body"@;
    assert(x.len() == 9 && x[0] == 'l' && x[1] == 'o' && x[4] == '.' && x[8] == 'y');
    let x = "loop.end"@;
    assert(x.len() == 8 && x[0] == 'l' && x[1] == 'o' && x[4] == '.' && x[7] == 'd');
    let x = "for.cond"@;
    assert(x.len() == 8 && x[0] == 'f' && x[1] == 'o' && x[4] == 'c' && x[7] == 'd');
    let x = "for.body"@;
    assert(x.len() == 8 && x[0] == 'f' && x[1] == 'o' && x[4] == 'b' && x[7] == 'y');
    let x = "for.inc"@;
    assert(x.len() == 7 && x[0] == 'f' && x[1] == 'o' && x[4] == 'i' && x[6] == 'c');
    let x = "for.end"@;
    assert(x.len() == 7 && x[0] == 'f' && x[1] == 'o' && x[4] == 'e' && x[6] == 'd');
    let x = "foreach.cond"@;
    assert(x.len() == 12 && x[0] == 'f' && x[1] == 'o' && x[4] == 'a' && x[8] == 'c'
        && x[11] == 'd');
    let x = "foreach.body"@;
    assert(x.len() == 12 && x[0] == 'f' && x[1] == 'o' && x[4] == 'a' && x[8] == 'b'
        && x[11] == 'y');
    let x = "foreach.inc"@;
    assert(x.len() == 11 && x[0] == 'f' && x[1] == 'o' && x[4] == 'a' && x[8] == 'i'
        && x[10] == 'c');
    let x = "foreach.end"@;
    assert(x.len() == 11 && x[0] == 'f' && x[1] == 'o' && x[4] == 'a' && x[8] == 'e'
        && x[10] == 'd');
    let x = "sc.rhs"@;
    assert(x.len() == 6 && x[0] == 's' && x[1] == 'c' && x[4] == 'h' && x[5] == 's');
    let x = "sc.end"@;
    assert(x.len() == 6 && x[0] == 's' && x[1] == 'c' && x[4] == 'n' && x[5] == 'd');
    let x = "match.arm"@;
    assert(x.len() == 9 && x[0] == 'm' && x[1] == 'a' && x[4] == 'h' && x[8] == 'm');
    let x = "match.next"@;
    assert(x.len() == 10 && x[0] == 'm' && x[1] == 'a' && x[4] == 'h' && x[8] == 'x'
        && x[9] == 't');
    let x = "match.end"@;
    assert(x.len() == 9 && x[0] == 'm' && x[1] == 'a' && x[4] == 'h' && x[8] == 'd');
    let x = "check"@;
    assert(x.len() == 5 && x[0] == 'c' && x[1] == 'h' && x[4] == 'k');
    let x = "inc"@;
    assert(x.len() == 3 && x[0] == 'i' && x[1] == 'n' && x[2] == 'c');
    let x = "dec"@;
    assert(x.len() == 3 && x[0] == 'd' && x[1] == 'e' && x[2] == 'c');
    let x = "dead"@;
    assert(x.len() == 4 && x[0] == 'd' && x[1] == 'e' && x[3] == 'd');
    let x = "owner"@;
    assert(x.len() == 5 && x[0] == 'o' && x[1] == 'w' && x[4] == 'r');
    let x = "drop"@;
    assert(x.len() == 4 && x[0] == 'd' && x[1] == 'r' && x[3] == 'p');
    let x = "arr"@;
    assert(x.len() == 3 && x[0] == 'a' && x[1] == 'r' && x[2] == 'r');
    let x = "elem.loop"@;
    assert(x.len() == 9 && x[0] == 'e' && x[1] == 'l' && x[4] == '.' && x[8] == 'p');
    let x = "elem.body"@;
    assert(x.len() == 9 && x[0] == 'e' && x[1] == 'l' && x[4] == '.' && x[8] == 'y');
    let x = "free.data"@;
    assert(x.len() == 9 && x[0] == 'f' && x[1] == 'r' && x[4] == '.' && x[8] == 'a');
    let x = "free.block"@;
    assert(x.len() == 10 && x[0] == 'f' && x[1] == 'r' && x[4] == '.' && x[8] == 'c'
        && x[9] == 'k');
    let x = "store"@;
    assert(x.len() == 5 && x[0] == 's' && x[1] == 't' && x[4] == 'e');
    let x = "done"@;
    assert(x.len() == 4 && x[0] == 'd' && x[1] == 'o' && x[3] == 'e');
    let x = "copy"@;
    assert(x.len() == 4 && x[0] == 'c' && x[1] == 'o' && x[3] == 'y');
    let x = "null"@;
    assert(x.len() == 4 && x[0] == 'n' && x[1] == 'u' && x[3] == 'l');
    let x = "grow"@;
    assert(x.len() == 4 && x[0] == 'g' && x[1] == 'r' && x[3] == 'w');
    let x = "retain"@;
    assert(x.len() == 6 && x[0] == 'r' && x[1] == 'e' && x[4] == 'i' && x[5] == 'n');
    let x = "write"@;
    assert(x.len() == 5 && x[0] == 'w' && x[1] == 'r' && x[4] == 'e');
    let x = "trap"@;
    assert(x.len() == 4 && x[0] == 't' && x[1] == 'r' && x[3] == 'p');
    let x = "load"@;
    assert(x.len() == 4 && x[0] == 'l' && x[1] == 'o' && x[3] == 'd');
    let x = "swap"@;
    assert(x.len() == 4 && x[0] == 's' && x[1] == 'w' && x[3] == 'p');
    let x = "drop.variant"@;
    assert(x.len() == 12 && x[0] == 'd' && x[1] == 'r' && x[4] == '.' && x[8] == 'i'
        && x[11] == 't');
    let x = "drop.next"@;
    assert(x.len() == 9 && x[0] == 'd' && x[1] == 'r' && x[4] == '.' && x[8] == 't');
}

/// Blocks of one function that have different names have different texts.
pub proof fn law_blocks_are_told_apart(a: Label, b: Label)
    requires
        a != b,
    ensures
        label_text(a) != label_text(b),
{
    if label_text(a) == label_text(b) {
        lemma_marks(a.mark, b.mark);
        lemma_marks(b.mark, a.mark);
        law_naturals_are_numerals(a.at as nat);
        law_naturals_are_numerals(b.at as nat);
        lemma_cut(mark_text(a.mark), dec(a.at as nat), mark_text(b.mark), dec(b.at as nat));
    }
}

/// A text that ends in no digit and digits behind it are told apart.
proof fn lemma_cut(x: Seq<char>, m: Seq<char>, y: Seq<char>, n: Seq<char>)
    requires
        x.len() > 0,
        y.len() > 0,
        !('0' <= x.last() <= '9'),
        !('0' <= y.last() <= '9'),
        numeral(m),
        numeral(n),
        x + m == y + n,
    ensures
        x == y,
        m == n,
{
    let t = x + m;
    assert(t.len() == x.len() + m.len());
    assert(t.len() == (y + n).len());
    if x.len() < y.len() {
        assert(t[y.len() - 1] == m[y.len() - 1 - x.len()]);
        assert(t[y.len() - 1] == y.last());
    } else if y.len() < x.len() {
        assert((y + n)[x.len() - 1] == n[x.len() - 1 - y.len()]);
        assert(t[x.len() - 1] == x.last());
    }
    assert(t.take(x.len() as int) =~= x);
    assert((y + n).take(x.len() as int) =~= y);
    assert(t.skip(x.len() as int) =~= m);
    assert((y + n).skip(x.len() as int) =~= n);
}

} // verus!
