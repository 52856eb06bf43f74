//! Preparing the equation for each sample point, and the pass over the
//! sampled points before they are plotted.

use vstd::prelude::*;
use crate::text::{
    chars_of, lacks, lemma_not_start, lemma_replaced_absent, lemma_replaced_lacks, lemma_replaced_prefix,
    lemma_replaced_start, replace_chars, replaced, starts_with, string_of,
};
use crate::tokens::{parenthesized, wrap_parens};

verus! {

/// The equation with every `x` replaced by the value's text in parentheses.
pub open spec fn substituted(equ: Seq<char>, value: Seq<char>) -> Seq<char> {
    replaced(equ, seq!['x'], parenthesized(value))
}

/// Puts the text of a sample point in place of every `x` of the equation,
/// in parentheses so that a sign or an exponent stays with the value.
pub fn substitute_x(equ: &str, value_text: &str) -> (r: String)
    ensures
        r@ == substituted(equ@, value_text@),
{
    let e = chars_of(equ);
    let v = chars_of(value_text);
    let x = vec!['x'];
    assert(x@ =~= seq!['x']);
    let rep = wrap_parens(&v);
    let out = replace_chars(&e, &x, &rep);
    string_of(&out)
}

/// Walks `points` in steps of `points.len() / count` elements and copies
/// each element it lands on into a new vector, which is then dropped: the
/// points themselves are left as they are. The walk only ends when the
/// step is positive or there are no points, which `requires` states.
pub fn trim_to_x_points<T: Clone>(points: &mut Vec<T>, count: i32)
    requires
        old(points)@.len() == 0 ==> count != 0,
        old(points)@.len() > 0 ==> 0 < count <= old(points)@.len() <= i32::MAX,
    ensures
        final(points)@ == old(points)@,
{
    let len = points.len();
    if len == 0 {
        return;
    }
    let c: usize = count as usize;
    let step: usize = len / c;
    assert(step >= 1) by (nonlinear_arith)
        requires
            0 < c <= len,
            step == len / c,
    ;
    let mut picked: Vec<T> = Vec::new();
    let mut j: usize = 0;
    while j < len
        invariant
            len == points@.len(),
            step >= 1,
        decreases len - j,
    {
        picked.push(points[j].clone());
        if len - j <= step {
            j = len;
        } else {
            j += step;
        }
    }
}

/// No `x` is left once the value is put in, if the value's text has none.
pub proof fn law_substitution_leaves_no_x(equ: Seq<char>, value: Seq<char>)
    requires
        lacks(value, 'x'),
    ensures
        lacks(substituted(equ, value), 'x'),
{
    let p = parenthesized(value);
    assert forall|i: int| 0 <= i < p.len() implies p[i] != 'x' by {
        if 0 < i < p.len() - 1 {
            assert(p[i] == value[i - 1]);
        }
    }
    lemma_replaced_lacks(equ, seq!['x'], p, 'x');
}

/// Each `x` becomes the whole text of the value between parentheses, and
/// nothing else changes: text without `x` is kept as it is, and the first
/// `x` is replaced in place, the rest of the equation being treated the
/// same way.
pub proof fn law_substitution_places_value(a: Seq<char>, b: Seq<char>, value: Seq<char>)
    requires
        lacks(a, 'x'),
    ensures
        substituted(a, value) == a,
        substituted(a + seq!['x'] + b, value) == a + seq!['('] + value + seq![')'] + substituted(
            b,
            value,
        ),
{
    let pat = seq!['x'];
    let rep = parenthesized(value);
    assert forall|j: int| 0 <= j < a.len() implies !starts_with(#[trigger] a.skip(j), pat) by {
        assert(a.skip(j)[0] == a[j]);
        lemma_not_start(a.skip(j), pat, 0);
    }
    lemma_replaced_absent(a, pat, rep);
    lemma_replaced_prefix(a, pat + b, pat, rep);
    lemma_replaced_start(pat, b, rep);
    assert(a + seq!['x'] + b =~= a + (pat + b));
    assert(a + (rep + replaced(b, pat, rep)) =~= a + seq!['('] + value + seq![')'] + replaced(
        b,
        pat,
        rep,
    ));
}

} // verus!
