//! What a term of an equation stands for: a trigonometric function, or
//! its inverse, applied to the number that follows its name, or a number.

use vstd::prelude::*;
use crate::text::{lacks, lemma_not_start, matches_at, starts_with};

verus! {

/// The functions that a term may begin with. Angles are in degrees.
#[derive(Clone, Copy, Debug, PartialEq, Eq, Structural)]
pub enum Function {
    Asin,
    Acos,
    Atan,
    Acsc,
    Asec,
    Acot,
    Sin,
    Cos,
    Tan,
    Csc,
    Sec,
    Cot,
}

/// The name by which a function is written.
pub open spec fn function_name(f: Function) -> Seq<char> {
    match f {
        Function::Asin => seq!['a', 's', 'i', 'n'],
        Function::Acos => seq!['a', 'c', 'o', 's'],
        Function::Atan => seq!['a', 't', 'a', 'n'],
        Function::Acsc => seq!['a', 'c', 's', 'c'],
        Function::Asec => seq!['a', 's', 'e', 'c'],
        Function::Acot => seq!['a', 'c', 'o', 't'],
        Function::Sin => seq!['s', 'i', 'n'],
        Function::Cos => seq!['c', 'o', 's'],
        Function::Tan => seq!['t', 'a', 'n'],
        Function::Csc => seq!['c', 's', 'c'],
        Function::Sec => seq!['s', 'e', 'c'],
        Function::Cot => seq!['c', 'o', 't'],
    }
}

/// The order in which the names are tried: the inverse functions first.
pub open spec fn functions() -> Seq<Function> {
    seq![
        Function::Asin,
        Function::Acos,
        Function::Atan,
        Function::Acsc,
        Function::Asec,
        Function::Acot,
        Function::Sin,
        Function::Cos,
        Function::Tan,
        Function::Csc,
        Function::Sec,
        Function::Cot,
    ]
}

/// The first function of `fs` whose name begins `t`.
pub open spec fn first_match(t: Seq<char>, fs: Seq<Function>) -> Option<Function>
    decreases fs.len(),
{
    if fs.len() == 0 {
        None
    } else if starts_with(t, function_name(fs[0])) {
        Some(fs[0])
    } else {
        first_match(t, fs.drop_first())
    }
}

/// `t` with every parenthesis removed.
pub open spec fn strip_parens(t: Seq<char>) -> Seq<char>
    decreases t.len(),
{
    if t.len() == 0 {
        t
    } else if t.last() == '(' || t.last() == ')' {
        strip_parens(t.drop_last())
    } else {
        strip_parens(t.drop_last()).push(t.last())
    }
}

/// What a term stands for. A term of at least four characters that begins
/// with a function's name (tried in the order of `functions`) is that
/// function applied to the rest of the term. Any other term is a number,
/// written as the term without its parentheses.
pub open spec fn classify(t: Seq<char>) -> (Option<Function>, Seq<char>) {
    if t.len() >= 4 && first_match(t, functions()) is Some {
        let f = first_match(t, functions()).unwrap();
        (Some(f), t.skip(function_name(f).len() as int))
    } else {
        (None, strip_parens(t))
    }
}

fn name_of(f: Function) -> (v: Vec<char>)
    ensures
        v@ == function_name(f),
{
    let v = match f {
        Function::Asin => vec!['a', 's', 'i', 'n'],
        Function::Acos => vec!['a', 'c', 'o', 's'],
        Function::Atan => vec!['a', 't', 'a', 'n'],
        Function::Acsc => vec!['a', 'c', 's', 'c'],
        Function::Asec => vec!['a', 's', 'e', 'c'],
        Function::Acot => vec!['a', 'c', 'o', 't'],
        Function::Sin => vec!['s', 'i', 'n'],
        Function::Cos => vec!['c', 'o', 's'],
        Function::Tan => vec!['t', 'a', 'n'],
        Function::Csc => vec!['c', 's', 'c'],
        Function::Sec => vec!['s', 'e', 'c'],
        Function::Cot => vec!['c', 'o', 't'],
    };
    assert(v@ =~= function_name(f));
    v
}

fn function_list() -> (v: Vec<Function>)
    ensures
        v@ == functions(),
{
    let v = vec![
        Function::Asin,
        Function::Acos,
        Function::Atan,
        Function::Acsc,
        Function::Asec,
        Function::Acot,
        Function::Sin,
        Function::Cos,
        Function::Tan,
        Function::Csc,
        Function::Sec,
        Function::Cot,
    ];
    assert(v@ =~= functions());
    v
}

fn without_parens(t: &Vec<char>) -> (r: Vec<char>)
    ensures
        r@ == strip_parens(t@),
{
    let mut r: Vec<char> = Vec::new();
    let n = t.len();
    let mut i: usize = 0;
    assert(t@.take(0) =~= Seq::<char>::empty());
    while i < n
        invariant
            n == t@.len(),
            i <= n,
            r@ == strip_parens(t@.take(i as int)),
        decreases n - i,
    {
        assert(t@.take(i + 1).drop_last() =~= t@.take(i as int));
        assert(t@.take(i + 1).last() == t[i as int]);
        if t[i] != '(' && t[i] != ')' {
            r.push(t[i]);
        }
        i += 1;
    }
    assert(t@.take(n as int) =~= t@);
    r
}

fn tail_from(t: &Vec<char>, k: usize) -> (r: Vec<char>)
    requires
        k <= t@.len(),
    ensures
        r@ == t@.skip(k as int),
{
    let mut r: Vec<char> = Vec::new();
    let n = t.len();
    let mut i: usize = k;
    while i < n
        invariant
            n == t@.len(),
            k <= i <= n,
            r@ =~= t@.subrange(k as int, i as int),
        decreases n - i,
    {
        r.push(t[i]);
        i += 1;
        assert(r@ =~= t@.subrange(k as int, i as int));
    }
    assert(t@.subrange(k as int, n as int) =~= t@.skip(k as int));
    r
}

/// Splits a term into the function it begins with, if any, and the text of
/// its number, as `classify` says.
pub fn classify_term(t: &Vec<char>) -> (r: (Option<Function>, Vec<char>))
    ensures
        (r.0, r.1@) == classify(t@),
{
    if t.len() >= 4 {
        let fs = function_list();
        let m = fs.len();
        let mut k: usize = 0;
        assert(t@.skip(0) =~= t@);
        assert(fs@.skip(0) =~= fs@);
        while k < m
            invariant
                m == fs@.len(),
                fs@ == functions(),
                k <= m,
                t@.len() >= 4,
                first_match(t@, functions()) == first_match(t@, fs@.skip(k as int)),
            decreases m - k,
        {
            let f = fs[k];
            let name = name_of(f);
            assert(fs@.skip(k as int)[0] == f);
            assert(fs@.skip(k as int).drop_first() =~= fs@.skip(k + 1));
            if matches_at(t, 0, &name) {
                let rest = tail_from(t, name.len());
                return (Some(f), rest);
            }
            k += 1;
        }
        assert(fs@.skip(m as int).len() == 0);
    }
    (None, without_parens(t))
}

proof fn lemma_first_match(t: Seq<char>, fs: Seq<Function>)
    ensures
        first_match(t, fs) matches Some(f) ==> starts_with(t, function_name(f)),
    decreases fs.len(),
{
    if fs.len() > 0 {
        lemma_first_match(t, fs.drop_first());
    }
}

proof fn lemma_strip_parens(t: Seq<char>)
    ensures
        lacks(strip_parens(t), '('),
        lacks(strip_parens(t), ')'),
    decreases t.len(),
{
    if t.len() > 0 {
        lemma_strip_parens(t.drop_last());
    }
}

/// A term that names a function is that name followed by the argument's
/// text; a term taken as a number yields a text without parentheses.
pub proof fn law_term_parts(t: Seq<char>)
    ensures
        classify(t).0 matches Some(f) ==> t == function_name(f) + classify(t).1,
        classify(t).0 is None ==> lacks(classify(t).1, '(') && lacks(classify(t).1, ')'),
{
    lemma_first_match(t, functions());
    lemma_strip_parens(t);
    if let Some(f) = classify(t).0 {
        let k = function_name(f).len() as int;
        assert(t =~= t.take(k) + t.skip(k));
    }
}

/// A position below both names' lengths where two different names differ.
spec fn differ_at(f: Function, g: Function) -> int {
    if function_name(f)[0] != function_name(g)[0] {
        0
    } else if function_name(f)[1] != function_name(g)[1] {
        1
    } else if function_name(f)[2] != function_name(g)[2] {
        2
    } else {
        3
    }
}

proof fn lemma_names_differ(f: Function, g: Function)
    requires
        f != g,
    ensures
        0 <= differ_at(f, g) < function_name(f).len(),
        differ_at(f, g) < function_name(g).len(),
        function_name(f)[differ_at(f, g)] != function_name(g)[differ_at(f, g)],
{
}

/// No other name begins a term that begins with a function's name.
proof fn lemma_other_name_absent(f: Function, g: Function, a: Seq<char>)
    requires
        f != g,
    ensures
        !starts_with(function_name(f) + a, function_name(g)),
{
    lemma_names_differ(f, g);
    let k = differ_at(f, g);
    assert((function_name(f) + a)[k] == function_name(f)[k]);
    lemma_not_start(function_name(f) + a, function_name(g), k);
}

proof fn lemma_first_match_finds(t: Seq<Function>, a: Seq<char>, f: Function, i: int)
    requires
        0 <= i < t.len(),
        t[i] == f,
        forall|j: int| 0 <= j < i ==> t[j] != f,
    ensures
        first_match(function_name(f) + a, t) == Some(f),
    decreases i,
{
    let s = function_name(f) + a;
    if i == 0 {
        assert(s.take(function_name(f).len() as int) =~= function_name(f));
    } else {
        lemma_other_name_absent(f, t[0], a);
        assert forall|j: int| 0 <= j < i - 1 implies t.drop_first()[j] != f by {
            assert(t.drop_first()[j] == t[j + 1]);
        }
        lemma_first_match_finds(t.drop_first(), a, f, i - 1);
    }
}

/// Where each function stands among those tried.
spec fn position(f: Function) -> int {
    match f {
        Function::Asin => 0,
        Function::Acos => 1,
        Function::Atan => 2,
        Function::Acsc => 3,
        Function::Asec => 4,
        Function::Acot => 5,
        Function::Sin => 6,
        Function::Cos => 7,
        Function::Tan => 8,
        Function::Csc => 9,
        Function::Sec => 10,
        Function::Cot => 11,
    }
}

proof fn lemma_position(f: Function)
    ensures
        0 <= position(f) < functions().len(),
        functions()[position(f)] == f,
        forall|j: int| 0 <= j < position(f) ==> functions()[j] != f,
{
    let fs = functions();
    assert forall|j: int| 0 <= j < position(f) implies fs[j] != f by {
        assert(position(fs[j]) == j);
    }
}

/// A term made of a function's name and some text after it is read as
/// that function applied to that text, for every function.
pub proof fn law_name_then_argument(f: Function, a: Seq<char>)
    requires
        a.len() >= 1,
    ensures
        classify(function_name(f) + a) == (Some(f), a),
{
    lemma_position(f);
    lemma_first_match_finds(functions(), a, f, position(f));
    let t = function_name(f) + a;
    assert(t.skip(function_name(f).len() as int) =~= a);
}

/// Each inverse function is read from its usual name, followed by its
/// argument: `asin`, `acos`, `atan`, `acsc`, `asec` and `acot`.
#[verifier::rlimit(60)]
pub proof fn law_inverse_spellings(a: Seq<char>)
    requires
        a.len() >= 1,
    ensures
        classify(seq!['a', 's', 'i', 'n'] + a) == (Some(Function::Asin), a),
        classify(seq!['a', 'c', 'o', 's'] + a) == (Some(Function::Acos), a),
        classify(seq!['a', 't', 'a', 'n'] + a) == (Some(Function::Atan), a),
        classify(seq!['a', 'c', 's', 'c'] + a) == (Some(Function::Acsc), a),
        classify(seq!['a', 's', 'e', 'c'] + a) == (Some(Function::Asec), a),
        classify(seq!['a', 'c', 'o', 't'] + a) == (Some(Function::Acot), a),
{
    assert(classify(seq!['a', 's', 'i', 'n'] + a) == (Some(Function::Asin), a)) by {
        law_name_then_argument(Function::Asin, a);
    }
    assert(classify(seq!['a', 'c', 'o', 's'] + a) == (Some(Function::Acos), a)) by {
        law_name_then_argument(Function::Acos, a);
    }
    assert(classify(seq!['a', 't', 'a', 'n'] + a) == (Some(Function::Atan), a)) by {
        law_name_then_argument(Function::Atan, a);
    }
    assert(classify(seq!['a', 'c', 's', 'c'] + a) == (Some(Function::Acsc), a)) by {
        law_name_then_argument(Function::Acsc, a);
    }
    assert(classify(seq!['a', 's', 'e', 'c'] + a) == (Some(Function::Asec), a)) by {
        law_name_then_argument(Function::Asec, a);
    }
    assert(classify(seq!['a', 'c', 'o', 't'] + a) == (Some(Function::Acot), a)) by {
        law_name_then_argument(Function::Acot, a);
    }
}

/// Each trigonometric function is read from its usual name, followed by
/// its argument: `sin`, `cos`, `tan`, `csc`, `sec` and `cot`.
#[verifier::rlimit(60)]
pub proof fn law_direct_spellings(a: Seq<char>)
    requires
        a.len() >= 1,
    ensures
        classify(seq!['s', 'i', 'n'] + a) == (Some(Function::Sin), a),
        classify(seq!['c', 'o', 's'] + a) == (Some(Function::Cos), a),
        classify(seq!['t', 'a', 'n'] + a) == (Some(Function::Tan), a),
        classify(seq!['c', 's', 'c'] + a) == (Some(Function::Csc), a),
        classify(seq!['s', 'e', 'c'] + a) == (Some(Function::Sec), a),
        classify(seq!['c', 'o', 't'] + a) == (Some(Function::Cot), a),
{
    assert(classify(seq!['s', 'i', 'n'] + a) == (Some(Function::Sin), a)) by {
        law_name_then_argument(Function::Sin, a);
    }
    assert(classify(seq!['c', 'o', 's'] + a) == (Some(Function::Cos), a)) by {
        law_name_then_argument(Function::Cos, a);
    }
    assert(classify(seq!['t', 'a', 'n'] + a) == (Some(Function::Tan), a)) by {
        law_name_then_argument(Function::Tan, a);
    }
    assert(classify(seq!['c', 's', 'c'] + a) == (Some(Function::Csc), a)) by {
        law_name_then_argument(Function::Csc, a);
    }
    assert(classify(seq!['s', 'e', 'c'] + a) == (Some(Function::Sec), a)) by {
        law_name_then_argument(Function::Sec, a);
    }
    assert(classify(seq!['c', 'o', 't'] + a) == (Some(Function::Cot), a)) by {
        law_name_then_argument(Function::Cot, a);
    }
}

proof fn lemma_strip_is_filter(t: Seq<char>)
    ensures
        strip_parens(t) == t.filter(|c: char| c != '(' && c != ')'),
    decreases t.len(),
{
    reveal(Seq::filter);
    if t.len() > 0 {
        lemma_strip_is_filter(t.drop_last());
    }
}

/// A term taken as a number loses its parentheses and nothing else: the
/// text of the number is the term with every `(` and `)` left out, so a
/// term without parentheses is kept exactly as written.
pub proof fn law_number_text(t: Seq<char>)
    ensures
        classify(t).0 is None ==> classify(t).1 == t.filter(|c: char| c != '(' && c != ')'),
        classify(t).0 is None && lacks(t, '(') && lacks(t, ')') ==> classify(t).1 == t,
{
    lemma_strip_is_filter(t);
    if classify(t).0 is None && lacks(t, '(') && lacks(t, ')') {
        lemma_strip_keeps(t);
    }
}

proof fn lemma_strip_keeps(t: Seq<char>)
    requires
        lacks(t, '('),
        lacks(t, ')'),
    ensures
        strip_parens(t) == t,
    decreases t.len(),
{
    if t.len() > 0 {
        assert(lacks(t.drop_last(), '(') && lacks(t.drop_last(), ')')) by {
            assert forall|i: int| 0 <= i < t.drop_last().len() implies t.drop_last()[i] != '(' && t.drop_last()[i] != ')' by {
                assert(t.drop_last()[i] == t[i]);
            }
        }
        lemma_strip_keeps(t.drop_last());
        assert(t.drop_last().push(t.last()) =~= t);
    }
}

} // verus!
