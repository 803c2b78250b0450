//! Names, and the bindings that they stand for.
//!
//! A binding may have the name of one around it, and hide it. A retain or
//! release can name a hidden binding all the same: by its name with a prime for
//! every binding of that name that hides it.
use vstd::prelude::*;
use crate::ast::{FunctionV, PatternV};
use crate::lexer::is_word;
use crate::lowering::all_params;
use crate::text::{chars_of, text_of};

verus! {

/// Whether a name can be one of a program's own: every character is one of a
/// word.
pub open spec fn own_name(name: Seq<char>) -> bool {
    forall|i: int| 0 <= i < name.len() ==> is_word(#[trigger] name[i])
}

pub open spec fn own_names(names: Seq<Seq<char>>) -> bool {
    forall|i: int| 0 <= i < names.len() ==> own_name(#[trigger] names[i])
}

/// The names that a pattern binds.
pub open spec fn pattern_names(pattern: PatternV) -> Seq<Seq<char>> {
    match pattern {
        PatternV::Wildcard => Seq::empty(),
        PatternV::Variant { name, bindings, types } => bindings,
    }
}

/// The names of a function's parameters, its receiver first.
pub open spec fn param_names(f: FunctionV) -> Seq<Seq<char>> {
    let params = all_params(f);
    Seq::new(params.len(), |i: int| params[i].name)
}

// ----- hidden bindings ------------------------------------------------------------------------
/// A name with `k` primes.
pub open spec fn primed(name: Seq<char>, k: nat) -> Seq<char>
    decreases k,
{
    if k == 0 {
        name
    } else {
        primed(name, (k - 1) as nat).push('\'')
    }
}

/// How many primes a name ends in.
pub open spec fn primes(name: Seq<char>) -> nat
    decreases name.len(),
{
    if name.len() > 0 && name.last() == '\'' {
        1 + primes(name.drop_last())
    } else {
        0
    }
}

/// A name without the primes it ends in.
pub open spec fn bare(name: Seq<char>) -> Seq<char>
    decreases name.len(),
{
    if name.len() > 0 && name.last() == '\'' {
        bare(name.drop_last())
    } else {
        name
    }
}

/// Primes can be told from the name.
pub proof fn lemma_primes_tell(name: Seq<char>, k: nat)
    requires
        primes(name) == 0,
    ensures
        primes(primed(name, k)) == k,
        bare(primed(name, k)) == name,
    decreases k,
{
    if k > 0 {
        let less = primed(name, (k - 1) as nat);
        lemma_primes_tell(name, (k - 1) as nat);
        assert(less.push('\'').drop_last() =~= less);
    }
}

/// A program's own names have no primes.
pub proof fn lemma_own_unprimed(name: Seq<char>)
    requires
        own_name(name),
    ensures
        primes(name) == 0,
{
    if name.len() > 0 {
        assert(is_word(name[name.len() - 1]));
    }
}

/// A name with `k` primes.
pub fn prime(name: &str, k: usize) -> (s: String)
    ensures
        s@ == primed(name@, k as nat),
{
    let mut s = String::from_str(name);
    let mut i: usize = 0;
    while i < k
        invariant
            i <= k,
            s@ == primed(name@, i as nat),
        decreases k - i,
    {
        s.push('\'');
        i = i + 1;
    }
    s
}

/// A name without the primes it ends in, and their number.
pub fn unprime(name: &str) -> (r: (String, usize))
    ensures
        r.0@ == bare(name@),
        r.1 == primes(name@),
{
    let chars = chars_of(name);
    let len: usize = chars.len();
    let mut n: usize = len;
    let mut k: usize = 0;
    assert(chars@.take(n as int) =~= name@);
    while n > 0 && chars[n - 1] == '\''
        invariant
            n + k == len == chars@.len(),
            bare(chars@.take(n as int)) == bare(name@),
            primes(chars@.take(n as int)) + k == primes(name@),
        decreases n,
    {
        assert(chars@.take(n as int).drop_last() =~= chars@.take(n - 1));
        n = n - 1;
        k = k + 1;
    }
    assert(chars@.subrange(0, n as int) =~= chars@.take(n as int));
    (text_of(&chars, 0, n), k)
}

} // verus!
