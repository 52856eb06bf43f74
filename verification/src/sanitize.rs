//! Normalisation of an equation typed by the user before it is evaluated.

use vstd::prelude::*;
use crate::text::{
    chars_of, lacks, lemma_not_start, lemma_replaced_absent, lemma_replaced_cons, lemma_replaced_lacks,
    lemma_replaced_split, lemma_replaced_start, replace_chars, replaced, starts_with, string_of,
};

verus! {

/// A replacement rule: every occurrence of the first text becomes the second.
pub type Rule = (Seq<char>, Seq<char>);

/// The digits, in the order in which their rules are applied.
pub open spec fn digits() -> Seq<char> {
    seq!['1', '2', '3', '4', '5', '6', '7', '8', '9', '0']
}

/// For each digit `d`, the rule that turns `d next` into `d*next`.
pub open spec fn digit_rules(next: char) -> Seq<Rule> {
    digits().map_values(|d: char| (seq![d, next], seq![d, '*', next]))
}

/// The rules, in the order in which they are applied: remove spaces and
/// line breaks, turn `-` into the sign of a negative term (`+-`), merge
/// doubled `+` and drop the `+` of such a sign after `^` and `(`, then make
/// a digit directly before `(` or `x` a multiplication.
pub open spec fn sanitize_rules() -> Seq<Rule> {
    seq![
        (seq![' '], Seq::<char>::empty()),
        (seq!['\n'], Seq::<char>::empty()),
        (seq!['-'], seq!['+', '-']),
        (seq!['+', '+'], seq!['+']),
        (seq!['^', '+', '-'], seq!['^', '-']),
        (seq!['(', '+', '-'], seq!['(', '-']),
    ] + digit_rules('(') + digit_rules('x')
}

/// Applies the rules one after the other, each to the whole text.
pub open spec fn apply_rules(s: Seq<char>, rules: Seq<Rule>) -> Seq<char>
    decreases rules.len(),
{
    if rules.len() == 0 {
        s
    } else {
        apply_rules(replaced(s, rules[0].0, rules[0].1), rules.drop_first())
    }
}

/// The normal form of an equation.
pub open spec fn sanitized(s: Seq<char>) -> Seq<char> {
    apply_rules(s, sanitize_rules())
}

/// The view of an executable rule table.
pub open spec fn table_view(t: Seq<(Vec<char>, Vec<char>)>) -> Seq<Rule> {
    t.map_values(|r: (Vec<char>, Vec<char>)| (r.0@, r.1@))
}

fn push_digit_rules(t: &mut Vec<(Vec<char>, Vec<char>)>, next: char)
    ensures
        table_view(final(t)@) == table_view(old(t)@) + digit_rules(next),
{
    let ds = vec!['1', '2', '3', '4', '5', '6', '7', '8', '9', '0'];
    assert(ds@ == digits());
    let n = ds.len();
    let mut i: usize = 0;
    while i < n
        invariant
            n == ds@.len(),
            ds@ == digits(),
            i <= n,
            table_view(t@) =~= table_view(old(t)@) + digit_rules(next).take(i as int),
        decreases n - i,
    {
        let d = ds[i];
        let ghost prev = t@;
        let p = vec![d, next];
        let r = vec![d, '*', next];
        assert(p@ =~= seq![d, next]);
        assert(r@ =~= seq![d, '*', next]);
        t.push((p, r));
        assert(table_view(t@) =~= table_view(prev).push((seq![d, next], seq![d, '*', next])));
        assert(digit_rules(next)[i as int] == (seq![d, next], seq![d, '*', next]));
        assert(digit_rules(next).take(i + 1) =~= digit_rules(next).take(i as int).push(
            digit_rules(next)[i as int],
        ));
        i += 1;
        assert(table_view(t@) =~= table_view(old(t)@) + digit_rules(next).take(i as int));
    }
    assert(digit_rules(next).take(n as int) =~= digit_rules(next));
}

fn push_rule(t: &mut Vec<(Vec<char>, Vec<char>)>, pat: Vec<char>, rep: Vec<char>)
    ensures
        table_view(final(t)@) == table_view(old(t)@).push((pat@, rep@)),
{
    t.push((pat, rep));
    assert(table_view(t@) =~= table_view(old(t)@).push((pat@, rep@)));
}

fn sanitize_table() -> (t: Vec<(Vec<char>, Vec<char>)>)
    ensures
        table_view(t@) == sanitize_rules(),
{
    let mut t: Vec<(Vec<char>, Vec<char>)> = Vec::new();
    let p0: Vec<char> = vec![' '];
    let r0: Vec<char> = vec![];
    assert(p0@ =~= seq![' ']);
    assert(r0@ =~= Seq::<char>::empty());
    push_rule(&mut t, p0, r0);
    let p1: Vec<char> = vec!['\n'];
    let r1: Vec<char> = vec![];
    assert(p1@ =~= seq!['\n']);
    assert(r1@ =~= Seq::<char>::empty());
    push_rule(&mut t, p1, r1);
    let p2: Vec<char> = vec!['-'];
    let r2: Vec<char> = vec!['+', '-'];
    assert(p2@ =~= seq!['-']);
    assert(r2@ =~= seq!['+', '-']);
    push_rule(&mut t, p2, r2);
    let p3: Vec<char> = vec!['+', '+'];
    let r3: Vec<char> = vec!['+'];
    assert(p3@ =~= seq!['+', '+']);
    assert(r3@ =~= seq!['+']);
    push_rule(&mut t, p3, r3);
    let p4: Vec<char> = vec!['^', '+', '-'];
    let r4: Vec<char> = vec!['^', '-'];
    assert(p4@ =~= seq!['^', '+', '-']);
    assert(r4@ =~= seq!['^', '-']);
    push_rule(&mut t, p4, r4);
    let p5: Vec<char> = vec!['(', '+', '-'];
    let r5: Vec<char> = vec!['(', '-'];
    assert(p5@ =~= seq!['(', '+', '-']);
    assert(r5@ =~= seq!['(', '-']);
    push_rule(&mut t, p5, r5);
    assert(table_view(t@) =~= seq![
        (seq![' '], Seq::<char>::empty()),
        (seq!['\n'], Seq::<char>::empty()),
        (seq!['-'], seq!['+', '-']),
        (seq!['+', '+'], seq!['+']),
        (seq!['^', '+', '-'], seq!['^', '-']),
        (seq!['(', '+', '-'], seq!['(', '-']),
    ]);
    push_digit_rules(&mut t, '(');
    push_digit_rules(&mut t, 'x');
    assert(table_view(t@) =~= sanitize_rules());
    t
}

/// Normalises an equation: see `sanitize_rules` for the steps.
pub fn sanitize_equ(equ: String) -> (r: String)
    ensures
        r@ == sanitized(equ@),
{
    let table = sanitize_table();
    let mut cur = chars_of(equ.as_str());
    let n = table.len();
    let ghost rules = sanitize_rules();
    let mut k: usize = 0;
    assert(rules.skip(0) =~= rules);
    while k < n
        invariant
            n == table@.len(),
            table_view(table@) == rules,
            rules == sanitize_rules(),
            k <= n,
            apply_rules(cur@, rules.skip(k as int)) == sanitized(equ@),
        decreases n - k,
    {
        assert(table_view(table@)[k as int] == rules[k as int]);
        cur = replace_chars(&cur, &table[k].0, &table[k].1);
        assert(rules.skip(k as int).drop_first() =~= rules.skip(k + 1));
        k += 1;
    }
    assert(rules.skip(n as int).len() == 0);
    string_of(&cur)
}

proof fn lemma_apply_rules_lacks(s: Seq<char>, rules: Seq<Rule>, c: char)
    requires
        lacks(s, c),
        forall|k: int| 0 <= k < rules.len() ==> lacks(#[trigger] rules[k].1, c),
    ensures
        lacks(apply_rules(s, rules), c),
    decreases rules.len(),
{
    if rules.len() > 0 {
        lemma_replaced_lacks(s, rules[0].0, rules[0].1, c);
        assert forall|k: int| 0 <= k < rules.drop_first().len() implies lacks(
            #[trigger] rules.drop_first()[k].1,
            c,
        ) by {
            assert(rules.drop_first()[k] == rules[k + 1]);
        }
        lemma_apply_rules_lacks(replaced(s, rules[0].0, rules[0].1), rules.drop_first(), c);
    }
}

/// A normalised equation holds no space and no line break.
pub proof fn law_sanitized_has_no_whitespace(s: Seq<char>)
    ensures
        lacks(sanitized(s), ' '),
        lacks(sanitized(s), '\n'),
{
    let r = sanitize_rules();
    let rest = r.drop_first().drop_first();
    let empty = Seq::<char>::empty();
    let s1 = replaced(s, seq![' '], empty);
    let s2 = replaced(s1, seq!['\n'], empty);
    assert(r[0] == (seq![' '], empty));
    assert(r.drop_first()[0] == (seq!['\n'], empty));
    lemma_replaced_lacks(s, seq![' '], empty, ' ');
    lemma_replaced_lacks(s1, seq!['\n'], empty, ' ');
    lemma_replaced_lacks(s1, seq!['\n'], empty, '\n');
    assert(r.len() == 26);
    assert(apply_rules(s, r) == apply_rules(s1, r.drop_first()));
    assert(apply_rules(s1, r.drop_first()) == apply_rules(s2, rest));
    assert forall|k: int| 0 <= k < rest.len() implies lacks(#[trigger] rest[k].1, ' ') && lacks(
        rest[k].1,
        '\n',
    ) by {
        assert(rest[k] == r[k + 2]);
        if k >= 4 && k < 14 {
            assert(r[k + 2] == digit_rules('(')[k - 4]);
        } else if k >= 14 {
            assert(r[k + 2] == digit_rules('x')[k - 14]);
        }
    }
    lemma_apply_rules_lacks(s2, rest, ' ');
    lemma_apply_rules_lacks(s2, rest, '\n');
}

/// A character after which `-` is the sign of a number.
pub open spec fn sign_context(c: char) -> bool {
    c == '+' || c == '^' || c == '('
}

/// Every `-` of `s` comes right after `+`, `^` or `(`: it is the sign of
/// the term that follows, never an operator between two terms.
pub open spec fn minus_is_sign(s: Seq<char>) -> bool {
    forall|i: int| 0 <= i < s.len() && #[trigger] s[i] == '-' ==> i > 0 && sign_context(s[i - 1])
}

spec fn inner_ok(s: Seq<char>) -> bool {
    forall|i: int| 1 <= i < s.len() && #[trigger] s[i] == '-' ==> sign_context(s[i - 1])
}

spec fn keeps_signs(r: Rule) -> bool {
    &&& r.0.len() > 0
    &&& r.1.len() > 0
    &&& inner_ok(r.1)
    &&& r.1[0] != '-'
    &&& sign_context(r.0.last()) ==> sign_context(r.1.last())
}

proof fn lemma_inner_concat(a: Seq<char>, b: Seq<char>)
    requires
        inner_ok(a),
        inner_ok(b),
        b.len() > 0 && b[0] == '-' ==> a.len() > 0 && sign_context(a.last()),
    ensures
        inner_ok(a + b),
{
    let c = a + b;
    assert forall|i: int| 1 <= i < c.len() && #[trigger] c[i] == '-' implies sign_context(c[i - 1]) by {
        if i < a.len() {
            assert(c[i] == a[i] && c[i - 1] == a[i - 1]);
        } else if i == a.len() {
            assert(c[i] == b[0]);
            assert(c[i - 1] == a.last());
        } else {
            assert(c[i] == b[i - a.len()]);
            assert(c[i - 1] == b[i - a.len() - 1]);
        }
    }
}

proof fn lemma_signs_made(s: Seq<char>)
    ensures
        inner_ok(replaced(s, seq!['-'], seq!['+', '-'])),
        replaced(s, seq!['-'], seq!['+', '-']).len() > 0 ==> replaced(s, seq!['-'], seq!['+', '-'])[0]
            != '-',
    decreases s.len(),
{
    let pat = seq!['-'];
    let rep = seq!['+', '-'];
    if s.len() > 0 {
        let r = replaced(s, pat, rep);
        if starts_with(s, pat) {
            let rest = s.skip(1);
            lemma_signs_made(rest);
            assert(inner_ok(rep));
            lemma_inner_concat(rep, replaced(rest, pat, rep));
            assert(r == rep + replaced(rest, pat, rep));
        } else {
            let rest = s.drop_first();
            lemma_signs_made(rest);
            assert(s[0] != '-') by {
                if s[0] == '-' {
                    assert(s.take(1) =~= pat);
                }
            }
            lemma_inner_concat(seq![s[0]], replaced(rest, pat, rep));
            assert(r == seq![s[0]] + replaced(rest, pat, rep));
        }
    }
}

proof fn lemma_signs_kept(t: Seq<char>, pat: Seq<char>, rep: Seq<char>)
    requires
        keeps_signs((pat, rep)),
        inner_ok(t),
    ensures
        inner_ok(replaced(t, pat, rep)),
        replaced(t, pat, rep).len() > 0 && replaced(t, pat, rep)[0] == '-' ==> t.len() > 0 && t[0]
            == '-',
    decreases t.len(),
{
    if t.len() > 0 {
        if starts_with(t, pat) {
            let m = pat.len() as int;
            let rest = t.skip(m);
            assert(inner_ok(rest)) by {
                assert forall|i: int| 1 <= i < rest.len() && #[trigger] rest[i] == '-' implies sign_context(
                    rest[i - 1],
                ) by {
                    assert(rest[i] == t[i + m]);
                    assert(rest[i - 1] == t[i + m - 1]);
                }
            }
            lemma_signs_kept(rest, pat, rep);
            let out = replaced(rest, pat, rep);
            if out.len() > 0 && out[0] == '-' {
                assert(rest[0] == t[m]);
                assert(t[m] == '-');
                assert(t[m - 1] == t.take(m)[m - 1]);
                assert(t[m - 1] == pat.last());
            }
            lemma_inner_concat(rep, out);
            assert(replaced(t, pat, rep) == rep + out);
        } else {
            let rest = t.drop_first();
            assert(inner_ok(rest)) by {
                assert forall|i: int| 1 <= i < rest.len() && #[trigger] rest[i] == '-' implies sign_context(
                    rest[i - 1],
                ) by {
                    assert(rest[i] == t[i + 1]);
                    assert(rest[i - 1] == t[i]);
                }
            }
            lemma_signs_kept(rest, pat, rep);
            let out = replaced(rest, pat, rep);
            if out.len() > 0 && out[0] == '-' {
                assert(rest[0] == t[1]);
            }
            lemma_inner_concat(seq![t[0]], out);
            assert(replaced(t, pat, rep) == seq![t[0]] + out);
        }
    }
}

proof fn lemma_rules_keep_signs(s: Seq<char>, rules: Seq<Rule>)
    requires
        minus_is_sign(s),
        forall|k: int| 0 <= k < rules.len() ==> keeps_signs(#[trigger] rules[k]),
    ensures
        minus_is_sign(apply_rules(s, rules)),
    decreases rules.len(),
{
    if rules.len() > 0 {
        let (pat, rep) = rules[0];
        assert(keeps_signs(rules[0]));
        assert(inner_ok(s));
        lemma_signs_kept(s, pat, rep);
        let s2 = replaced(s, pat, rep);
        assert(minus_is_sign(s2));
        assert forall|k: int| 0 <= k < rules.drop_first().len() implies keeps_signs(
            #[trigger] rules.drop_first()[k],
        ) by {
            assert(rules.drop_first()[k] == rules[k + 1]);
        }
        lemma_rules_keep_signs(s2, rules.drop_first());
    }
}

/// In a normalised equation every `-` is the sign of a term: it comes
/// right after `+`, `^` or `(`, so subtraction has become the addition of
/// a negative term.
#[verifier::rlimit(40)]
pub proof fn law_minus_is_a_sign(s: Seq<char>)
    ensures
        minus_is_sign(sanitized(s)),
{
    let r = sanitize_rules();
    let empty = Seq::<char>::empty();
    let s1 = replaced(s, seq![' '], empty);
    let s2 = replaced(s1, seq!['\n'], empty);
    let s3 = replaced(s2, seq!['-'], seq!['+', '-']);
    let rest = r.skip(3);
    assert(r.len() == 26);
    assert(r[0] == (seq![' '], empty));
    assert(r[1] == (seq!['\n'], empty));
    assert(r[2] == (seq!['-'], seq!['+', '-']));
    assert(r.drop_first().drop_first().drop_first() =~= rest);
    assert(apply_rules(s, r) == apply_rules(s1, r.drop_first()));
    assert(apply_rules(s1, r.drop_first()) == apply_rules(s2, r.drop_first().drop_first()));
    assert(apply_rules(s2, r.drop_first().drop_first()) == apply_rules(s3, rest));
    lemma_signs_made(s2);
    assert(minus_is_sign(s3));
    assert forall|k: int| 0 <= k < rest.len() implies keeps_signs(#[trigger] rest[k]) by {
        assert(rest[k] == r[k + 3]);
        if k >= 3 && k < 13 {
            assert(r[k + 3] == digit_rules('(')[k - 3]);
        } else if k >= 13 {
            assert(r[k + 3] == digit_rules('x')[k - 13]);
        }
    }
    lemma_rules_keep_signs(s3, rest);
}

/// Whether `c` is a decimal digit.
pub open spec fn is_digit(c: char) -> bool {
    '0' <= c && c <= '9'
}

/// No digit of `s` stands right before `(` or `x`: a number written
/// before a group or the variable is always followed by `*`.
pub open spec fn products_explicit(s: Seq<char>) -> bool {
    forall|i: int|
        0 <= i < s.len() - 1 && is_digit(#[trigger] s[i]) ==> s[i + 1] != '(' && s[i + 1] != 'x'
}

spec fn no_pair(s: Seq<char>, a: char, b: char) -> bool {
    forall|i: int| 0 <= i < s.len() - 1 ==> !(#[trigger] s[i] == a && s[i + 1] == b)
}

/// A rule that keeps the first and last characters of what it replaces,
/// and brings in no `a` right before `b`.
spec fn keeps_pair(r: Rule, a: char, b: char) -> bool {
    &&& r.0.len() > 0
    &&& r.1.len() > 0
    &&& r.1[0] == r.0[0]
    &&& r.1.last() == r.0.last()
    &&& no_pair(r.1, a, b)
}

proof fn lemma_first_kept(t: Seq<char>, pat: Seq<char>, rep: Seq<char>)
    requires
        pat.len() > 0,
        rep.len() > 0,
        rep[0] == pat[0],
    ensures
        t.len() == 0 ==> replaced(t, pat, rep).len() == 0,
        t.len() > 0 ==> replaced(t, pat, rep).len() > 0 && replaced(t, pat, rep)[0] == t[0],
{
    if t.len() > 0 && starts_with(t, pat) {
        assert(t[0] == t.take(pat.len() as int)[0]);
    }
}

proof fn lemma_no_pair_concat(x: Seq<char>, y: Seq<char>, a: char, b: char)
    requires
        no_pair(x, a, b),
        no_pair(y, a, b),
        !(x.len() > 0 && y.len() > 0 && x.last() == a && y[0] == b),
    ensures
        no_pair(x + y, a, b),
{
    let z = x + y;
    assert forall|i: int| 0 <= i < z.len() - 1 implies !(#[trigger] z[i] == a && z[i + 1] == b) by {
        if i + 1 < x.len() {
            assert(z[i] == x[i] && z[i + 1] == x[i + 1]);
        } else if i + 1 == x.len() {
            assert(z[i] == x.last() && z[i + 1] == y[0]);
        } else {
            assert(z[i] == y[i - x.len()] && z[i + 1] == y[i + 1 - x.len()]);
        }
    }
}

proof fn lemma_pair_removed(s: Seq<char>, a: char, b: char)
    requires
        a != b,
        a != '*',
        b != '*',
    ensures
        no_pair(replaced(s, seq![a, b], seq![a, '*', b]), a, b),
    decreases s.len(),
{
    let pat = seq![a, b];
    let rep = seq![a, '*', b];
    if s.len() > 0 {
        if starts_with(s, pat) {
            let rest = s.skip(2);
            lemma_pair_removed(rest, a, b);
            lemma_no_pair_concat(rep, replaced(rest, pat, rep), a, b);
            assert(replaced(s, pat, rep) == rep + replaced(rest, pat, rep));
        } else {
            let rest = s.drop_first();
            lemma_pair_removed(rest, a, b);
            lemma_first_kept(rest, pat, rep);
            if s[0] == a && rest.len() > 0 && rest[0] == b {
                assert(s.take(2) =~= pat);
            }
            lemma_no_pair_concat(seq![s[0]], replaced(rest, pat, rep), a, b);
            assert(replaced(s, pat, rep) == seq![s[0]] + replaced(rest, pat, rep));
        }
    }
}

proof fn lemma_pair_kept(t: Seq<char>, pat: Seq<char>, rep: Seq<char>, a: char, b: char)
    requires
        keeps_pair((pat, rep), a, b),
        no_pair(t, a, b),
    ensures
        no_pair(replaced(t, pat, rep), a, b),
    decreases t.len(),
{
    if t.len() > 0 {
        if starts_with(t, pat) {
            let m = pat.len() as int;
            let rest = t.skip(m);
            assert(no_pair(rest, a, b)) by {
                assert forall|i: int| 0 <= i < rest.len() - 1 implies !(#[trigger] rest[i] == a && rest[i
                    + 1] == b) by {
                    assert(rest[i] == t[i + m] && rest[i + 1] == t[i + m + 1]);
                }
            }
            lemma_pair_kept(rest, pat, rep, a, b);
            lemma_first_kept(rest, pat, rep);
            if rest.len() > 0 {
                assert(rest[0] == t[m]);
                assert(t[m - 1] == t.take(m)[m - 1]);
            }
            lemma_no_pair_concat(rep, replaced(rest, pat, rep), a, b);
            assert(replaced(t, pat, rep) == rep + replaced(rest, pat, rep));
        } else {
            let rest = t.drop_first();
            assert(no_pair(rest, a, b)) by {
                assert forall|i: int| 0 <= i < rest.len() - 1 implies !(#[trigger] rest[i] == a && rest[i
                    + 1] == b) by {
                    assert(rest[i] == t[i + 1] && rest[i + 1] == t[i + 2]);
                }
            }
            lemma_pair_kept(rest, pat, rep, a, b);
            lemma_first_kept(rest, pat, rep);
            if rest.len() > 0 {
                assert(rest[0] == t[1]);
            }
            lemma_no_pair_concat(seq![t[0]], replaced(rest, pat, rep), a, b);
            assert(replaced(t, pat, rep) == seq![t[0]] + replaced(rest, pat, rep));
        }
    }
}

proof fn lemma_rules_keep_pair(s: Seq<char>, rules: Seq<Rule>, a: char, b: char)
    requires
        no_pair(s, a, b),
        forall|k: int| 0 <= k < rules.len() ==> keeps_pair(#[trigger] rules[k], a, b),
    ensures
        no_pair(apply_rules(s, rules), a, b),
    decreases rules.len(),
{
    if rules.len() > 0 {
        assert(keeps_pair(rules[0], a, b));
        lemma_pair_kept(s, rules[0].0, rules[0].1, a, b);
        assert forall|k: int| 0 <= k < rules.drop_first().len() implies keeps_pair(
            #[trigger] rules.drop_first()[k],
            a,
            b,
        ) by {
            assert(rules.drop_first()[k] == rules[k + 1]);
        }
        lemma_rules_keep_pair(replaced(s, rules[0].0, rules[0].1), rules.drop_first(), a, b);
    }
}

proof fn lemma_apply_rules_split(s: Seq<char>, rules: Seq<Rule>, k: int)
    requires
        0 <= k < rules.len(),
    ensures
        apply_rules(s, rules) == apply_rules(
            replaced(apply_rules(s, rules.take(k)), rules[k].0, rules[k].1),
            rules.skip(k + 1),
        ),
    decreases k,
{
    if k == 0 {
        assert(rules.take(0).len() == 0);
        assert(rules.drop_first() =~= rules.skip(1));
    } else {
        let s1 = replaced(s, rules[0].0, rules[0].1);
        let tail = rules.drop_first();
        lemma_apply_rules_split(s1, tail, k - 1);
        assert(tail[k - 1] == rules[k]);
        assert(tail.skip(k) =~= rules.skip(k + 1));
        assert(rules.take(k)[0] == rules[0]);
        assert(rules.take(k).drop_first() =~= tail.take(k - 1));
    }
}

#[verifier::rlimit(40)]
proof fn lemma_digit_rule_pair(s: Seq<char>, j: int, next: char, base: int)
    requires
        0 <= j < 10,
        next == '(' || next == 'x',
        base == 6 || base == 16,
        base == 6 ==> next == '(',
        base == 16 ==> next == 'x',
    ensures
        no_pair(sanitized(s), digits()[j], next),
{
    let r = sanitize_rules();
    let d = digits()[j];
    let k = base + j;
    assert(r.len() == 26);
    assert(r[k] == digit_rules(next)[j]);
    assert(r[k] == (seq![d, next], seq![d, '*', next]));
    lemma_apply_rules_split(s, r, k);
    let u = apply_rules(s, r.take(k));
    lemma_pair_removed(u, d, next);
    let rest = r.skip(k + 1);
    assert forall|m: int| 0 <= m < rest.len() implies keeps_pair(#[trigger] rest[m], d, next) by {
        assert(rest[m] == r[k + 1 + m]);
        let q = k + 1 + m;
        let rule = r[q];
        if q < 16 {
            assert(rule == digit_rules('(')[q - 6]);
        } else {
            assert(rule == digit_rules('x')[q - 16]);
        }
        let e = digits()[if q < 16 { q - 6 } else { q - 16 }];
        let c = if q < 16 { '(' } else { 'x' };
        assert(rule == (seq![e, c], seq![e, '*', c]));
        assert(no_pair(rule.1, d, next)) by {
            assert forall|i: int| 0 <= i < rule.1.len() - 1 implies !(#[trigger] rule.1[i] == d
                && rule.1[i + 1] == next) by {
                assert(rule.1[1] == '*');
            }
        }
    }
    lemma_rules_keep_pair(replaced(u, seq![d, next], seq![d, '*', next]), rest, d, next);
}

proof fn lemma_digit_listed(c: char)
    requires
        is_digit(c),
    ensures
        exists|j: int| 0 <= j < 10 && digits()[j] == c,
{
    if c == '1' {
        assert(digits()[0] == c);
    } else if c == '2' {
        assert(digits()[1] == c);
    } else if c == '3' {
        assert(digits()[2] == c);
    } else if c == '4' {
        assert(digits()[3] == c);
    } else if c == '5' {
        assert(digits()[4] == c);
    } else if c == '6' {
        assert(digits()[5] == c);
    } else if c == '7' {
        assert(digits()[6] == c);
    } else if c == '8' {
        assert(digits()[7] == c);
    } else if c == '9' {
        assert(digits()[8] == c);
    } else {
        assert(c == '0');
        assert(digits()[9] == c);
    }
}

/// In a normalised equation a number is never written right before a
/// group or the variable: `2(x)` and `3x` have become `2*(x)` and `3*x`.
pub proof fn law_products_explicit(s: Seq<char>)
    ensures
        products_explicit(sanitized(s)),
{
    let t = sanitized(s);
    assert forall|i: int| 0 <= i < t.len() - 1 && is_digit(#[trigger] t[i]) implies t[i + 1] != '('
        && t[i + 1] != 'x' by {
        lemma_digit_listed(t[i]);
        let j = choose|j: int| 0 <= j < 10 && digits()[j] == t[i];
        lemma_digit_rule_pair(s, j, '(', 6);
        lemma_digit_rule_pair(s, j, 'x', 16);
        assert(!(t[i] == digits()[j] && t[i + 1] == '('));
        assert(!(t[i] == digits()[j] && t[i + 1] == 'x'));
    }
}

// ---------------------------------------------------------------------------
// A normalised equation stays as it is when normalised again.

/// Every `a` of `s` is directly followed by `b`.
spec fn follows(s: Seq<char>, a: char, b: char) -> bool {
    forall|i: int| 0 <= i < s.len() && #[trigger] s[i] == a ==> i + 1 < s.len() && s[i + 1] == b
}

spec fn r2(u: Seq<char>) -> Seq<char> {
    replaced(u, seq!['-'], seq!['+', '-'])
}

spec fn r3(u: Seq<char>) -> Seq<char> {
    replaced(u, seq!['+', '+'], seq!['+'])
}

spec fn r4(u: Seq<char>) -> Seq<char> {
    replaced(u, seq!['^', '+', '-'], seq!['^', '-'])
}

spec fn r5(u: Seq<char>) -> Seq<char> {
    replaced(u, seq!['(', '+', '-'], seq!['(', '-'])
}

/// The shape of a normalised equation that normalising again relies on.
spec fn settled(t: Seq<char>) -> bool {
    &&& minus_is_sign(t)
    &&& follows(t, '+', '-')
    &&& no_pair(t, '^', '+')
    &&& no_pair(t, '(', '+')
}

proof fn lemma_follows_concat(x: Seq<char>, y: Seq<char>, a: char, b: char)
    requires
        forall|i: int| 0 <= i < x.len() - 1 && #[trigger] x[i] == a ==> x[i + 1] == b,
        follows(y, a, b),
        x.len() > 0 && x.last() == a ==> y.len() > 0 && y[0] == b,
    ensures
        follows(x + y, a, b),
{
    let z = x + y;
    assert forall|i: int| 0 <= i < z.len() && #[trigger] z[i] == a implies i + 1 < z.len() && z[i
        + 1] == b by {
        if i + 1 < x.len() {
            assert(z[i] == x[i] && z[i + 1] == x[i + 1]);
        } else if i + 1 == x.len() {
            assert(z[i] == x.last());
            assert(z[i + 1] == y[0]);
        } else {
            assert(z[i] == y[i - x.len()]);
            assert(z[i + 1] == y[i + 1 - x.len()]);
        }
    }
}

proof fn lemma_follows_suffix(t: Seq<char>, m: int, a: char, b: char)
    requires
        follows(t, a, b),
        0 <= m <= t.len(),
    ensures
        follows(t.skip(m), a, b),
{
    let r = t.skip(m);
    assert forall|i: int| 0 <= i < r.len() && #[trigger] r[i] == a implies i + 1 < r.len() && r[i
        + 1] == b by {
        assert(r[i] == t[i + m]);
        assert(t[i + m] == a);
        assert(r[i + 1] == t[i + m + 1]);
    }
}

proof fn lemma_no_pair_suffix(t: Seq<char>, m: int, a: char, b: char)
    requires
        no_pair(t, a, b),
        0 <= m <= t.len(),
    ensures
        no_pair(t.skip(m), a, b),
{
    let r = t.skip(m);
    assert forall|i: int| 0 <= i < r.len() - 1 implies !(#[trigger] r[i] == a && r[i + 1] == b) by {
        assert(r[i] == t[i + m] && r[i + 1] == t[i + m + 1]);
    }
}

proof fn lemma_lacks_suffix(t: Seq<char>, m: int, c: char)
    requires
        lacks(t, c),
        0 <= m <= t.len(),
    ensures
        lacks(t.skip(m), c),
{
    assert forall|i: int| 0 <= i < t.skip(m).len() implies t.skip(m)[i] != c by {
        assert(t.skip(m)[i] == t[i + m]);
    }
}

proof fn lemma_follows_made(u: Seq<char>)
    requires
        lacks(u, '+'),
    ensures
        follows(r2(u), '+', '-'),
    decreases u.len(),
{
    let pat = seq!['-'];
    let rep = seq!['+', '-'];
    if u.len() > 0 {
        if starts_with(u, pat) {
            lemma_lacks_suffix(u, 1, '+');
            lemma_follows_made(u.skip(1));
            lemma_follows_concat(rep, r2(u.skip(1)), '+', '-');
            assert(r2(u) == rep + r2(u.skip(1)));
        } else {
            let rest = u.drop_first();
            assert(rest =~= u.skip(1));
            lemma_lacks_suffix(u, 1, '+');
            lemma_follows_made(rest);
            assert(u[0] != '+');
            lemma_follows_concat(seq![u[0]], r2(rest), '+', '-');
            assert(r2(u) == seq![u[0]] + r2(rest));
        }
    }
}

proof fn lemma_follows_kept(t: Seq<char>, pat: Seq<char>, rep: Seq<char>, a: char, b: char)
    requires
        follows(t, a, b),
        pat.len() > 0,
        pat[0] != b,
        lacks(rep, a),
    ensures
        follows(replaced(t, pat, rep), a, b),
    decreases t.len(),
{
    if t.len() > 0 {
        assert(follows(rep, a, b));
        if starts_with(t, pat) {
            let m = pat.len() as int;
            lemma_follows_suffix(t, m, a, b);
            lemma_follows_kept(t.skip(m), pat, rep, a, b);
            lemma_follows_concat(rep, replaced(t.skip(m), pat, rep), a, b);
            assert(replaced(t, pat, rep) == rep + replaced(t.skip(m), pat, rep));
        } else {
            let rest = t.drop_first();
            assert(rest =~= t.skip(1));
            lemma_follows_suffix(t, 1, a, b);
            lemma_follows_kept(rest, pat, rep, a, b);
            if t[0] == a {
                assert(rest[0] == t[1]);
                assert(!starts_with(rest, pat)) by {
                    if starts_with(rest, pat) {
                        assert(rest.take(pat.len() as int)[0] == rest[0]);
                    }
                }
                assert(replaced(rest, pat, rep) == seq![rest[0]] + replaced(rest.drop_first(), pat, rep));
            }
            lemma_follows_concat(seq![t[0]], replaced(rest, pat, rep), a, b);
            assert(replaced(t, pat, rep) == seq![t[0]] + replaced(rest, pat, rep));
        }
    }
}

proof fn lemma_rules_follow(s: Seq<char>, rules: Seq<Rule>)
    requires
        follows(s, '+', '-'),
        forall|k: int|
            0 <= k < rules.len() ==> (#[trigger] rules[k]).0.len() > 0 && rules[k].0[0] != '-'
                && lacks(rules[k].1, '+'),
    ensures
        follows(apply_rules(s, rules), '+', '-'),
    decreases rules.len(),
{
    if rules.len() > 0 {
        assert(rules[0].0.len() > 0 && rules[0].0[0] != '-' && lacks(rules[0].1, '+'));
        lemma_follows_kept(s, rules[0].0, rules[0].1, '+', '-');
        assert forall|k: int| 0 <= k < rules.drop_first().len() implies (#[trigger] rules.drop_first()[k]).0.len()
            > 0 && rules.drop_first()[k].0[0] != '-' && lacks(rules.drop_first()[k].1, '+') by {
            assert(rules.drop_first()[k] == rules[k + 1]);
        }
        lemma_rules_follow(replaced(s, rules[0].0, rules[0].1), rules.drop_first());
    }
}

proof fn lemma_sign_pair_removed(x: Seq<char>, p: char)
    requires
        follows(x, '+', '-'),
        p != '+',
        p != '-',
    ensures
        no_pair(replaced(x, seq![p, '+', '-'], seq![p, '-']), p, '+'),
    decreases x.len(),
{
    let pat = seq![p, '+', '-'];
    let rep = seq![p, '-'];
    if x.len() > 0 {
        if starts_with(x, pat) {
            lemma_follows_suffix(x, 3, '+', '-');
            lemma_sign_pair_removed(x.skip(3), p);
            lemma_no_pair_concat(rep, replaced(x.skip(3), pat, rep), p, '+');
            assert(replaced(x, pat, rep) == rep + replaced(x.skip(3), pat, rep));
        } else {
            let rest = x.drop_first();
            assert(rest =~= x.skip(1));
            lemma_follows_suffix(x, 1, '+', '-');
            lemma_sign_pair_removed(rest, p);
            lemma_first_kept(rest, pat, rep);
            if x[0] == p && rest.len() > 0 && rest[0] == '+' {
                assert(x[1] == '+');
                assert(x[2] == '-');
                assert(x.take(3) =~= pat);
            }
            lemma_no_pair_concat(seq![x[0]], replaced(rest, pat, rep), p, '+');
            assert(replaced(x, pat, rep) == seq![x[0]] + replaced(rest, pat, rep));
        }
    }
}

/// A rule that puts `*` between a digit and `(` or `x`.
spec fn is_digit_rule(r: Rule) -> bool {
    &&& r.0.len() == 2
    &&& is_digit(r.0[0])
    &&& r.0[1] == '(' || r.0[1] == 'x'
    &&& r.1 == seq![r.0[0], '*', r.0[1]]
}

/// The rules, as `sanitize_rules` lists them.
proof fn lemma_rule_values()
    ensures
        sanitize_rules().len() == 26,
        sanitize_rules()[0] == (seq![' '], Seq::<char>::empty()),
        sanitize_rules()[1] == (seq!['\n'], Seq::<char>::empty()),
        sanitize_rules()[2] == (seq!['-'], seq!['+', '-']),
        sanitize_rules()[3] == (seq!['+', '+'], seq!['+']),
        sanitize_rules()[4] == (seq!['^', '+', '-'], seq!['^', '-']),
        sanitize_rules()[5] == (seq!['(', '+', '-'], seq!['(', '-']),
        forall|k: int| 6 <= k < 26 ==> is_digit_rule(#[trigger] sanitize_rules()[k]),
{
    let r = sanitize_rules();
    assert forall|k: int| 6 <= k < 26 implies is_digit_rule(#[trigger] r[k]) by {
        let j = if k < 16 { k - 6 } else { k - 16 };
        let c = if k < 16 { '(' } else { 'x' };
        assert(r[k] == digit_rules(c)[j]);
        let d = digits()[j];
        assert(is_digit(d));
        assert(r[k] == (seq![d, c], seq![d, '*', c]));
    }
}

/// `s` after the rules from the seventh on (the digit rules).
#[verifier::rlimit(40)]
proof fn lemma_sanitized_unfold(s: Seq<char>)
    ensures
        sanitized(s) == apply_rules(
            r5(
                r4(
                    r3(
                        r2(
                            replaced(
                                replaced(s, seq![' '], Seq::<char>::empty()),
                                seq!['\n'],
                                Seq::<char>::empty(),
                            ),
                        ),
                    ),
                ),
            ),
            sanitize_rules().skip(6),
        ),
{
    let r = sanitize_rules();
    lemma_rule_values();
    let e = Seq::<char>::empty();
    let s0 = replaced(s, seq![' '], e);
    let s1 = replaced(s0, seq!['\n'], e);
    let s2 = r2(s1);
    let s3 = r3(s2);
    let s4 = r4(s3);
    let s5 = r5(s4);
    assert(apply_rules(s, r) == apply_rules(s0, r.skip(1))) by {
        assert(r.drop_first() =~= r.skip(1));
    }
    assert(apply_rules(s0, r.skip(1)) == apply_rules(s1, r.skip(2))) by {
        assert(r.skip(1)[0] == r[1]);
        assert(r.skip(1).drop_first() =~= r.skip(2));
    }
    assert(apply_rules(s1, r.skip(2)) == apply_rules(s2, r.skip(3))) by {
        assert(r.skip(2)[0] == r[2]);
        assert(r.skip(2).drop_first() =~= r.skip(3));
    }
    assert(apply_rules(s2, r.skip(3)) == apply_rules(s3, r.skip(4))) by {
        assert(r.skip(3)[0] == r[3]);
        assert(r.skip(3).drop_first() =~= r.skip(4));
    }
    assert(apply_rules(s3, r.skip(4)) == apply_rules(s4, r.skip(5))) by {
        assert(r.skip(4)[0] == r[4]);
        assert(r.skip(4).drop_first() =~= r.skip(5));
    }
    assert(apply_rules(s4, r.skip(5)) == apply_rules(s5, r.skip(6))) by {
        assert(r.skip(5)[0] == r[5]);
        assert(r.skip(5).drop_first() =~= r.skip(6));
    }
}

#[verifier::rlimit(40)]
proof fn lemma_sanitized_settled(s: Seq<char>)
    requires
        lacks(s, '+'),
    ensures
        settled(sanitized(s)),
{
    let e = Seq::<char>::empty();
    let s0 = replaced(s, seq![' '], e);
    let s1 = replaced(s0, seq!['\n'], e);
    lemma_replaced_lacks(s, seq![' '], e, '+');
    lemma_replaced_lacks(s0, seq!['\n'], e, '+');
    let s2 = r2(s1);
    lemma_follows_made(s1);
    let s3 = r3(s2);
    assert forall|j: int| 0 <= j < s2.len() implies !starts_with(#[trigger] s2.skip(j), seq!['+', '+']) by {
        if starts_with(s2.skip(j), seq!['+', '+']) {
            assert(s2.skip(j).take(2)[0] == s2[j]);
            assert(s2.skip(j).take(2)[1] == s2[j + 1]);
        }
    }
    lemma_replaced_absent(s2, seq!['+', '+'], seq!['+']);
    assert(s3 == s2);
    let s4 = r4(s3);
    lemma_follows_kept(s3, seq!['^', '+', '-'], seq!['^', '-'], '+', '-');
    lemma_sign_pair_removed(s3, '^');
    let s5 = r5(s4);
    lemma_follows_kept(s4, seq!['(', '+', '-'], seq!['(', '-'], '+', '-');
    lemma_sign_pair_removed(s4, '(');
    assert(keeps_pair((seq!['(', '+', '-'], seq!['(', '-']), '^', '+'));
    lemma_pair_kept(s4, seq!['(', '+', '-'], seq!['(', '-'], '^', '+');
    let rest = sanitize_rules().skip(6);
    lemma_rule_values();
    assert forall|k: int| 0 <= k < rest.len() implies (#[trigger] rest[k]).0.len() > 0 && rest[k].0[0]
        != '-' && lacks(rest[k].1, '+') && keeps_pair(rest[k], '^', '+') && keeps_pair(
        rest[k],
        '(',
        '+',
    ) by {
        assert(rest[k] == sanitize_rules()[k + 6]);
        assert(is_digit_rule(sanitize_rules()[k + 6]));
        assert(rest[k].1[1] == '*');
    }
    lemma_rules_follow(s5, rest);
    lemma_rules_keep_pair(s5, rest, '^', '+');
    lemma_rules_keep_pair(s5, rest, '(', '+');
    lemma_sanitized_unfold(s);
    law_minus_is_a_sign(s);
}

proof fn lemma_replaced_single(c: char, pat: Seq<char>, rep: Seq<char>)
    requires
        pat.len() > 0,
        pat.len() > 1 || pat[0] != c,
    ensures
        replaced(seq![c], pat, rep) == seq![c],
{
    let e = Seq::<char>::empty();
    assert(seq![c] =~= seq![c] + e);
    if pat.len() == 1 {
        lemma_not_start(seq![c] + e, pat, 0);
    }
    lemma_replaced_cons(c, e, pat, rep);
    assert(replaced(e, pat, rep) == e);
}

/// `c` followed by a text that the rule leaves alone and that does not
/// continue a match begun at `c`.
proof fn lemma_replaced_pair(c: char, d: char, pat: Seq<char>, rep: Seq<char>)
    requires
        pat.len() > 0,
        pat[0] != c || (pat.len() > 1 && pat[1] != d),
        pat.len() > 1 || pat[0] != d,
    ensures
        replaced(seq![c, d], pat, rep) == seq![c, d],
{
    assert(seq![c, d] =~= seq![c] + seq![d]);
    if pat[0] != c {
        lemma_not_start(seq![c] + seq![d], pat, 0);
    } else {
        lemma_not_start(seq![c] + seq![d], pat, 1);
    }
    lemma_replaced_cons(c, seq![d], pat, rep);
    lemma_replaced_single(d, pat, rep);
}

/// What the sign rules make of one piece of a settled text: a sign with
/// what comes before it, or one character that is neither `-` nor `+`.
#[verifier::rlimit(40)]
proof fn lemma_chunk(x: Seq<char>)
    requires
        (x.len() == 2 && x[1] == '-' && sign_context(x[0])) || (x.len() == 1 && x[0] != '-' && x[0]
            != '+'),
    ensures
        r2(x).len() > 0 && r2(x).last() != '+',
        r3(r2(x)) == (if x.len() == 1 {
            x
        } else if x[0] == '+' {
            seq!['+', '-']
        } else {
            seq![x[0], '+', '-']
        }),
        r4(r3(r2(x))) == (if x.len() == 1 {
            x
        } else if x[0] == '^' {
            seq!['^', '-']
        } else if x[0] == '+' {
            seq!['+', '-']
        } else {
            seq!['(', '+', '-']
        }),
        r5(r4(r3(r2(x)))) == x,
{
    let e = Seq::<char>::empty();
    let p2 = seq!['-'];
    let q2 = seq!['+', '-'];
    let p3 = seq!['+', '+'];
    let q3 = seq!['+'];
    let p4 = seq!['^', '+', '-'];
    let q4 = seq!['^', '-'];
    let p5 = seq!['(', '+', '-'];
    let q5 = seq!['(', '-'];
    if x.len() == 1 {
        let c = x[0];
        assert(x =~= seq![c]);
        lemma_replaced_single(c, p2, q2);
        lemma_replaced_single(c, p3, q3);
        lemma_replaced_single(c, p4, q4);
        lemma_replaced_single(c, p5, q5);
    } else {
        let p = x[0];
        assert(x =~= seq![p] + seq!['-']);
        // the sign gets a `+` in front
        lemma_not_start(seq![p] + seq!['-'], p2, 0);
        lemma_replaced_cons(p, seq!['-'], p2, q2);
        assert(seq!['-'] =~= p2 + e);
        lemma_replaced_start(p2, e, q2);
        assert(replaced(e, p2, q2) == e);
        let x2 = seq![p, '+', '-'];
        assert(r2(x) =~= x2);
        if p == '+' {
            assert(x2 =~= p3 + seq!['-']);
            lemma_replaced_start(p3, seq!['-'], q3);
            lemma_replaced_single('-', p3, q3);
            assert(r3(x2) =~= seq!['+', '-']);
            lemma_replaced_pair('+', '-', p4, q4);
            lemma_replaced_pair('+', '-', p5, q5);
        } else {
            assert(x2 =~= seq![p] + seq!['+', '-']);
            lemma_not_start(seq![p] + seq!['+', '-'], p3, 0);
            lemma_replaced_cons(p, seq!['+', '-'], p3, q3);
            lemma_replaced_pair('+', '-', p3, q3);
            assert(r3(x2) =~= x2);
            if p == '^' {
                assert(x2 =~= p4 + e);
                lemma_replaced_start(p4, e, q4);
                assert(replaced(e, p4, q4) == e);
                assert(r4(x2) =~= q4);
                lemma_replaced_pair('^', '-', p5, q5);
            } else {
                assert(p == '(');
                assert(x2 =~= seq![p] + seq!['+', '-']);
                lemma_not_start(seq![p] + seq!['+', '-'], p4, 0);
                lemma_replaced_cons(p, seq!['+', '-'], p4, q4);
                lemma_replaced_pair('+', '-', p4, q4);
                assert(r4(x2) =~= x2);
                assert(x2 =~= p5 + e);
                lemma_replaced_start(p5, e, q5);
                assert(replaced(e, p5, q5) == e);
                assert(r5(x2) =~= q5);
            }
        }
    }
}

#[verifier::rlimit(40)]
proof fn lemma_signs_settled(t: Seq<char>)
    requires
        settled(t),
    ensures
        r5(r4(r3(r2(t)))) == t,
        t.len() > 0 ==> r3(r2(t)).len() > 0 && r3(r2(t))[0] == t[0] && r4(r3(r2(t))).len() > 0
            && r4(r3(r2(t)))[0] == t[0],
    decreases t.len(),
{
    let p2 = seq!['-'];
    let q2 = seq!['+', '-'];
    let p3 = seq!['+', '+'];
    let q3 = seq!['+'];
    let p4 = seq!['^', '+', '-'];
    let q4 = seq!['^', '-'];
    let p5 = seq!['(', '+', '-'];
    let q5 = seq!['(', '-'];
    if t.len() > 0 {
        let k: int = if t.len() >= 2 && t[1] == '-' { 2 } else { 1 };
        let x = t.take(k);
        let y = t.skip(k);
        assert(t =~= x + y);
        assert(t[0] != '-');
        if k == 2 {
            assert(sign_context(t[0]));
        } else {
            assert(t[0] != '+');
        }
        lemma_chunk(x);
        // what follows the first piece is settled too
        assert(minus_is_sign(y)) by {
            assert forall|i: int| 0 <= i < y.len() && #[trigger] y[i] == '-' implies i > 0 && sign_context(
                y[i - 1],
            ) by {
                assert(y[i] == t[i + k]);
                assert(t[i + k] == '-');
                if i == 0 {
                    assert(sign_context(t[k - 1]));
                } else {
                    assert(y[i - 1] == t[i + k - 1]);
                }
            }
        }
        lemma_follows_suffix(t, k, '+', '-');
        lemma_no_pair_suffix(t, k, '^', '+');
        lemma_no_pair_suffix(t, k, '(', '+');
        lemma_signs_settled(y);
        if y.len() > 0 {
            assert(y[0] == t[k]);
        }
        // stage by stage, the first piece and the rest are rewritten apart
        lemma_replaced_split(x, y, p2, q2);
        let x2 = r2(x);
        let y2 = r2(y);
        assert forall|j: int| 0 <= j < x2.len() && j + p3.len() > x2.len() implies !starts_with(
            #[trigger] (x2 + y2).skip(j),
            p3,
        ) by {
            assert((x2 + y2).skip(j)[0] == x2[j]);
            assert(x2[j] == x2.last());
            lemma_not_start((x2 + y2).skip(j), p3, 0);
        }
        lemma_replaced_split(x2, y2, p3, q3);
        let x3 = r3(x2);
        let y3 = r3(y2);
        assert forall|j: int| 0 <= j < x3.len() && j + p4.len() > x3.len() implies !starts_with(
            #[trigger] (x3 + y3).skip(j),
            p4,
        ) by {
            let z = (x3 + y3).skip(j);
            assert(z[0] == x3[j]);
            if x3.len() == 1 && x3[0] == '^' && y3.len() > 0 {
                assert(z[1] == y3[0]);
                assert(y3[0] == t[1]);
                assert(!(t[0] == '^' && t[1] == '+'));
                lemma_not_start(z, p4, 1);
            } else if x3[j] != '^' {
                lemma_not_start(z, p4, 0);
            }
        }
        lemma_replaced_split(x3, y3, p4, q4);
        let x4 = r4(x3);
        let y4 = r4(y3);
        assert forall|j: int| 0 <= j < x4.len() && j + p5.len() > x4.len() implies !starts_with(
            #[trigger] (x4 + y4).skip(j),
            p5,
        ) by {
            let z = (x4 + y4).skip(j);
            assert(z[0] == x4[j]);
            if x4.len() == 1 && x4[0] == '(' && y4.len() > 0 {
                assert(z[1] == y4[0]);
                assert(y4[0] == t[1]);
                assert(!(t[0] == '(' && t[1] == '+'));
                lemma_not_start(z, p5, 1);
            } else if x4[j] != '(' {
                lemma_not_start(z, p5, 0);
            }
        }
        lemma_replaced_split(x4, y4, p5, q5);
    }
}

spec fn absent_in(t: Seq<char>, pat: Seq<char>) -> bool {
    forall|j: int| 0 <= j < t.len() ==> !starts_with(#[trigger] t.skip(j), pat)
}

proof fn lemma_rules_absent(t: Seq<char>, rules: Seq<Rule>)
    requires
        forall|k: int| 0 <= k < rules.len() ==> (#[trigger] rules[k]).0.len() > 0 && absent_in(t, rules[k].0),
    ensures
        apply_rules(t, rules) == t,
    decreases rules.len(),
{
    if rules.len() > 0 {
        assert(rules[0].0.len() > 0 && absent_in(t, rules[0].0));
        lemma_replaced_absent(t, rules[0].0, rules[0].1);
        assert forall|k: int| 0 <= k < rules.drop_first().len() implies (#[trigger] rules.drop_first()[k]).0.len()
            > 0 && absent_in(t, rules.drop_first()[k].0) by {
            assert(rules.drop_first()[k] == rules[k + 1]);
        }
        lemma_rules_absent(t, rules.drop_first());
    }
}

proof fn lemma_absent_single(t: Seq<char>, c: char)
    requires
        lacks(t, c),
    ensures
        absent_in(t, seq![c]),
{
    assert forall|j: int| 0 <= j < t.len() implies !starts_with(#[trigger] t.skip(j), seq![c]) by {
        assert(t.skip(j)[0] == t[j]);
        lemma_not_start(t.skip(j), seq![c], 0);
    }
}

/// Normalising is done in one go: an equation typed without `+` is, once
/// normalised, left exactly as it is by normalising it again.
#[verifier::rlimit(40)]
pub proof fn law_sanitize_idempotent(s: Seq<char>)
    requires
        lacks(s, '+'),
    ensures
        sanitized(sanitized(s)) == sanitized(s),
{
    let t = sanitized(s);
    let e = Seq::<char>::empty();
    lemma_sanitized_settled(s);
    law_sanitized_has_no_whitespace(s);
    law_products_explicit(s);
    lemma_sanitized_unfold(t);
    lemma_absent_single(t, ' ');
    lemma_replaced_absent(t, seq![' '], e);
    lemma_absent_single(t, '\n');
    lemma_replaced_absent(t, seq!['\n'], e);
    lemma_signs_settled(t);
    let rest = sanitize_rules().skip(6);
    lemma_rule_values();
    assert forall|k: int| 0 <= k < rest.len() implies (#[trigger] rest[k]).0.len() > 0 && absent_in(
        t,
        rest[k].0,
    ) by {
        assert(rest[k] == sanitize_rules()[k + 6]);
        assert(is_digit_rule(sanitize_rules()[k + 6]));
        let pat = rest[k].0;
        assert forall|j: int| 0 <= j < t.len() implies !starts_with(#[trigger] t.skip(j), pat) by {
            if starts_with(t.skip(j), pat) {
                assert(t.skip(j).take(2)[0] == t[j]);
                assert(t.skip(j).take(2)[1] == t[j + 1]);
                assert(is_digit(t[j]));
            }
        }
    }
    lemma_rules_absent(t, rest);
}

} // verus!
