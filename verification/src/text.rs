//! Character-level text operations: conversion between strings and
//! character vectors, and replacement of every occurrence of a pattern.

use vstd::prelude::*;

verus! {

/// Whether `s` begins with `p`.
pub open spec fn starts_with(s: Seq<char>, p: Seq<char>) -> bool {
    p.len() <= s.len() && s.take(p.len() as int) =~= p
}

/// `s` with every occurrence of `pat` replaced by `rep`, matches taken
/// from left to right without overlap. An empty pattern matches before
/// every character and at the end, so `rep` is inserted there.
pub open spec fn replaced(s: Seq<char>, pat: Seq<char>, rep: Seq<char>) -> Seq<char>
    decreases s.len(),
{
    if s.len() == 0 {
        if pat.len() == 0 {
            rep
        } else {
            s
        }
    } else if pat.len() == 0 {
        rep + seq![s[0]] + replaced(s.drop_first(), pat, rep)
    } else if starts_with(s, pat) {
        rep + replaced(s.skip(pat.len() as int), pat, rep)
    } else {
        seq![s[0]] + replaced(s.drop_first(), pat, rep)
    }
}

/// `String::push` appends the character to the end of the string.
#[verifier::external_body]
pub(crate) fn string_push(s: &mut String, c: char)
    ensures
        final(s)@ == old(s)@.push(c),
{
    s.push(c);
}

/// The characters of `s`, in order.
pub fn chars_of(s: &str) -> (v: Vec<char>)
    ensures
        v@ == s@,
{
    let mut v: Vec<char> = Vec::new();
    for c in it: s.chars()
        invariant
            v@ == it.seq().take(it.index() as int),
    {
        v.push(c);
    }
    assert(v@ =~= s@);
    v
}

/// The string made of the characters of `v`, in order.
pub fn string_of(v: &Vec<char>) -> (s: String)
    ensures
        s@ == v@,
{
    let mut s = String::new();
    let n = v.len();
    let mut i: usize = 0;
    while i < n
        invariant
            n == v@.len(),
            i <= n,
            s@ =~= v@.take(i as int),
        decreases n - i,
    {
        string_push(&mut s, v[i]);
        i += 1;
        assert(s@ =~= v@.take(i as int));
    }
    s
}

/// Appends the characters of `src` to `out`.
fn push_all(out: &mut Vec<char>, src: &Vec<char>)
    ensures
        final(out)@ == old(out)@ + src@,
{
    let n = src.len();
    let mut i: usize = 0;
    while i < n
        invariant
            n == src@.len(),
            i <= n,
            out@ =~= old(out)@ + src@.take(i as int),
        decreases n - i,
    {
        out.push(src[i]);
        i += 1;
        assert(out@ =~= old(out)@ + src@.take(i as int));
    }
    assert(src@.take(n as int) =~= src@);
}

/// Whether `pat` occurs in `s` at position `i`.
pub fn matches_at(s: &Vec<char>, i: usize, pat: &Vec<char>) -> (b: bool)
    requires
        i <= s@.len(),
    ensures
        b == starts_with(s@.skip(i as int), pat@),
{
    let n = s.len();
    let m = pat.len();
    if m > n - i {
        return false;
    }
    let mut k: usize = 0;
    while k < m
        invariant
            n == s@.len(),
            m == pat@.len(),
            i + m <= n,
            k <= m,
            forall|j: int| 0 <= j < k ==> s@[i + j] == pat@[j],
        decreases m - k,
    {
        if s[i + k] != pat[k] {
            assert(s@.skip(i as int).take(m as int)[k as int] != pat@[k as int]);
            return false;
        }
        k += 1;
    }
    assert(s@.skip(i as int).take(m as int) =~= pat@);
    true
}

proof fn lemma_replaced_step(s: Seq<char>, i: int, pat: Seq<char>, rep: Seq<char>)
    requires
        0 <= i < s.len(),
        pat.len() > 0,
    ensures
        starts_with(s.skip(i), pat) ==> replaced(s.skip(i), pat, rep)
            == rep + replaced(s.skip(i + pat.len()), pat, rep),
        !starts_with(s.skip(i), pat) ==> replaced(s.skip(i), pat, rep)
            == seq![s[i]] + replaced(s.skip(i + 1), pat, rep),
{
    assert(s.skip(i).drop_first() =~= s.skip(i + 1));
    if starts_with(s.skip(i), pat) {
        assert(s.skip(i).skip(pat.len() as int) =~= s.skip(i + pat.len()));
    }
}

/// Replaces every occurrence of `pat` in `s` by `rep`, as `replaced` says.
pub fn replace_chars(s: &Vec<char>, pat: &Vec<char>, rep: &Vec<char>) -> (r: Vec<char>)
    ensures
        r@ == replaced(s@, pat@, rep@),
{
    let n = s.len();
    let mut out: Vec<char> = Vec::new();
    let mut i: usize = 0;
    assert(s@.skip(0) =~= s@);
    if pat.len() == 0 {
        while i < n
            invariant
                n == s@.len(),
                i <= n,
                pat@.len() == 0,
                out@ + replaced(s@.skip(i as int), pat@, rep@) == replaced(s@, pat@, rep@),
            decreases n - i,
        {
            assert(s@.skip(i as int).drop_first() =~= s@.skip(i + 1));
            push_all(&mut out, rep);
            out.push(s[i]);
            i += 1;
            assert(out@ + replaced(s@.skip(i as int), pat@, rep@) =~= replaced(s@, pat@, rep@));
        }
        push_all(&mut out, rep);
        assert(s@.skip(n as int).len() == 0);
        assert(out@ =~= replaced(s@, pat@, rep@));
        return out;
    }
    while i < n
        invariant
            n == s@.len(),
            i <= n,
            pat@.len() > 0,
            out@ + replaced(s@.skip(i as int), pat@, rep@) == replaced(s@, pat@, rep@),
        decreases n - i,
    {
        proof {
            lemma_replaced_step(s@, i as int, pat@, rep@);
        }
        if matches_at(s, i, pat) {
            push_all(&mut out, rep);
            i += pat.len();
            assert(out@ + replaced(s@.skip(i as int), pat@, rep@) =~= replaced(s@, pat@, rep@));
        } else {
            out.push(s[i]);
            i += 1;
            assert(out@ + replaced(s@.skip(i as int), pat@, rep@) =~= replaced(s@, pat@, rep@));
        }
    }
    assert(s@.skip(n as int).len() == 0);
    assert(out@ =~= replaced(s@, pat@, rep@));
    out
}

/// Whether the character `c` does not occur in `s`.
pub open spec fn lacks(s: Seq<char>, c: char) -> bool {
    forall|i: int| 0 <= i < s.len() ==> s[i] != c
}

/// Replacing never brings in a character that is neither in the text nor
/// in the replacement, and replacing a character by a text without it
/// leaves none of it.
pub proof fn lemma_replaced_lacks(s: Seq<char>, pat: Seq<char>, rep: Seq<char>, c: char)
    requires
        lacks(rep, c),
        lacks(s, c) || pat == seq![c],
    ensures
        lacks(replaced(s, pat, rep), c),
    decreases s.len(),
{
    if s.len() == 0 {
    } else if pat.len() == 0 {
        lemma_replaced_lacks(s.drop_first(), pat, rep, c);
        assert(s[0] != c);
    } else if starts_with(s, pat) {
        let rest = s.skip(pat.len() as int);
        assert(lacks(s, c) ==> lacks(rest, c)) by {
            if lacks(s, c) {
                assert forall|i: int| 0 <= i < rest.len() implies rest[i] != c by {
                    assert(rest[i] == s[i + pat.len()]);
                }
            }
        }
        lemma_replaced_lacks(rest, pat, rep, c);
    } else {
        let rest = s.drop_first();
        assert(lacks(s, c) ==> lacks(rest, c)) by {
            if lacks(s, c) {
                assert forall|i: int| 0 <= i < rest.len() implies rest[i] != c by {
                    assert(rest[i] == s[i + 1]);
                }
            }
        }
        if pat == seq![c] {
            assert(s[0] != c) by {
                if s[0] == c {
                    assert(s.take(1) =~= pat);
                }
            }
        }
        lemma_replaced_lacks(rest, pat, rep, c);
        assert(seq![s[0]] + replaced(rest, pat, rep) == replaced(s, pat, rep));
    }
}

/// Text before which no match can start is copied unchanged.
pub proof fn lemma_replaced_prefix(x: Seq<char>, y: Seq<char>, pat: Seq<char>, rep: Seq<char>)
    requires
        pat.len() > 0,
        lacks(x, pat[0]),
    ensures
        replaced(x + y, pat, rep) == x + replaced(y, pat, rep),
    decreases x.len(),
{
    if x.len() == 0 {
        assert(x + y =~= y);
    } else {
        let s = x + y;
        assert(!starts_with(s, pat)) by {
            if starts_with(s, pat) {
                assert(s.take(pat.len() as int)[0] == s[0]);
            }
        }
        let x1 = x.drop_first();
        assert(lacks(x1, pat[0])) by {
            assert forall|i: int| 0 <= i < x1.len() implies x1[i] != pat[0] by {
                assert(x1[i] == x[i + 1]);
            }
        }
        lemma_replaced_prefix(x1, y, pat, rep);
        assert(s.drop_first() =~= x1 + y);
        assert(seq![s[0]] + (x1 + replaced(y, pat, rep)) =~= x + replaced(y, pat, rep));
    }
}

/// Text in which the pattern does not occur is left as it is.
pub proof fn lemma_replaced_absent(y: Seq<char>, pat: Seq<char>, rep: Seq<char>)
    requires
        pat.len() > 0,
        forall|j: int| 0 <= j < y.len() ==> !starts_with(#[trigger] y.skip(j), pat),
    ensures
        replaced(y, pat, rep) == y,
    decreases y.len(),
{
    if y.len() > 0 {
        let y1 = y.drop_first();
        assert(y.skip(0) =~= y);
        assert forall|j: int| 0 <= j < y1.len() implies !starts_with(#[trigger] y1.skip(j), pat) by {
            assert(y1.skip(j) =~= y.skip(j + 1));
        }
        lemma_replaced_absent(y1, pat, rep);
        assert(seq![y[0]] + y1 =~= y);
    }
}

/// Where no match that starts in `x` runs past its end, replacing in `x`
/// and in `y` apart gives the same as replacing in `x + y`.
pub proof fn lemma_replaced_split(x: Seq<char>, y: Seq<char>, pat: Seq<char>, rep: Seq<char>)
    requires
        pat.len() > 0,
        forall|j: int|
            0 <= j < x.len() && j + pat.len() > x.len() ==> !starts_with(#[trigger] (x + y).skip(j), pat),
    ensures
        replaced(x + y, pat, rep) == replaced(x, pat, rep) + replaced(y, pat, rep),
    decreases x.len(),
{
    let s = x + y;
    let m = pat.len() as int;
    if x.len() == 0 {
        assert(s =~= y);
        assert(replaced(x, pat, rep) + replaced(y, pat, rep) =~= replaced(y, pat, rep));
    } else {
        assert(s.skip(0) =~= s);
        if starts_with(s, pat) {
            assert(m <= x.len());
            assert(x.take(m) =~= s.take(m));
            let x1 = x.skip(m);
            assert(s.skip(m) =~= x1 + y);
            assert forall|j: int| 0 <= j < x1.len() && j + pat.len() > x1.len() implies !starts_with(
                #[trigger] (x1 + y).skip(j),
                pat,
            ) by {
                assert((x1 + y).skip(j) =~= s.skip(j + m));
            }
            lemma_replaced_split(x1, y, pat, rep);
            assert(rep + (replaced(x1, pat, rep) + replaced(y, pat, rep)) =~= (rep + replaced(
                x1,
                pat,
                rep,
            )) + replaced(y, pat, rep));
        } else {
            assert(!starts_with(x, pat)) by {
                if starts_with(x, pat) {
                    assert(s.take(m) =~= x.take(m));
                }
            }
            let x1 = x.drop_first();
            assert(s.drop_first() =~= x1 + y);
            assert forall|j: int| 0 <= j < x1.len() && j + pat.len() > x1.len() implies !starts_with(
                #[trigger] (x1 + y).skip(j),
                pat,
            ) by {
                assert((x1 + y).skip(j) =~= s.skip(j + 1));
            }
            lemma_replaced_split(x1, y, pat, rep);
            assert(seq![x[0]] + (replaced(x1, pat, rep) + replaced(y, pat, rep)) =~= (seq![x[0]]
                + replaced(x1, pat, rep)) + replaced(y, pat, rep));
        }
    }
}

/// A text that starts with the pattern: the replacement, then the rest.
pub proof fn lemma_replaced_start(pat: Seq<char>, rest: Seq<char>, rep: Seq<char>)
    requires
        pat.len() > 0,
    ensures
        replaced(pat + rest, pat, rep) == rep + replaced(rest, pat, rep),
{
    assert((pat + rest).take(pat.len() as int) =~= pat);
    assert((pat + rest).skip(pat.len() as int) =~= rest);
}

/// A text that does not start with the pattern: its first character, then
/// the rest.
pub proof fn lemma_replaced_cons(c: char, rest: Seq<char>, pat: Seq<char>, rep: Seq<char>)
    requires
        pat.len() > 0,
        !starts_with(seq![c] + rest, pat),
    ensures
        replaced(seq![c] + rest, pat, rep) == seq![c] + replaced(rest, pat, rep),
{
    assert((seq![c] + rest).drop_first() =~= rest);
}

/// A text differs from the pattern at a position both have.
pub proof fn lemma_not_start(s: Seq<char>, pat: Seq<char>, k: int)
    requires
        0 <= k < pat.len(),
        k < s.len(),
        s[k] != pat[k],
    ensures
        !starts_with(s, pat),
{
    if pat.len() <= s.len() {
        assert(s.take(pat.len() as int)[k] == s[k]);
    }
}

} // verus!
