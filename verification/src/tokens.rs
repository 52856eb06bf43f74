//! Splitting an equation into terms and the operators between them, and
//! finding the outermost parenthesised groups.

use vstd::prelude::*;
use crate::text::{lacks, lemma_replaced_absent, lemma_replaced_prefix, replace_chars, replaced, starts_with};

verus! {

/// The characters that separate terms. `-` is not among them: it is the
/// sign of the term that follows.
pub open spec fn is_operator(c: char) -> bool {
    c == '+' || c == '*' || c == '/' || c == '^'
}

/// The views of a sequence of character vectors.
pub open spec fn views(v: Seq<Vec<char>>) -> Seq<Seq<char>> {
    v.map_values(|x: Vec<char>| x@)
}

/// Terms and operators of `s`, read left to right. An operator is
/// recorded and counted; any other character is appended to the term
/// whose index is the number of operators seen so far, which is opened
/// if there are not yet that many terms.
pub open spec fn tokenize(s: Seq<char>) -> (Seq<Seq<char>>, Seq<char>)
    decreases s.len(),
{
    if s.len() == 0 {
        (Seq::empty(), Seq::empty())
    } else {
        let (terms, ops) = tokenize(s.drop_last());
        let c = s.last();
        if is_operator(c) {
            (terms, ops.push(c))
        } else if terms.len() <= ops.len() {
            (terms.push(seq![c]), ops)
        } else {
            (terms.update(ops.len() as int, terms[ops.len() as int].push(c)), ops)
        }
    }
}

/// The text made of the terms with the operators between them: the first
/// term, then each operator followed by the next term.
pub open spec fn joined(terms: Seq<Seq<char>>, ops: Seq<char>) -> Seq<char>
    decreases terms.len(),
{
    if terms.len() == 0 {
        Seq::empty()
    } else if terms.len() == 1 {
        terms[0]
    } else {
        joined(terms.drop_last(), ops.drop_last()) + seq![ops.last()] + terms.last()
    }
}

/// A term as written between operators: not empty, and no operator in it.
pub open spec fn plain_term(t: Seq<char>) -> bool {
    t.len() > 0 && forall|j: int| 0 <= j < t.len() ==> !is_operator(#[trigger] t[j])
}

proof fn lemma_tokenize_term(s: Seq<char>, w: Seq<char>)
    requires
        tokenize(s).0.len() == tokenize(s).1.len(),
        plain_term(w),
    ensures
        tokenize(s + w) == (tokenize(s).0.push(w), tokenize(s).1),
    decreases w.len(),
{
    let (t, o) = tokenize(s);
    let c = w.last();
    assert(!is_operator(c));
    if w.len() == 1 {
        assert((s + w).drop_last() =~= s);
        assert((s + w).last() == c);
        assert(w =~= seq![c]);
    } else {
        let w1 = w.drop_last();
        assert(plain_term(w1)) by {
            assert forall|j: int| 0 <= j < w1.len() implies !is_operator(#[trigger] w1[j]) by {
                assert(w1[j] == w[j]);
            }
        }
        lemma_tokenize_term(s, w1);
        assert((s + w).drop_last() =~= s + w1);
        assert((s + w).last() == c);
        assert(w1.push(c) =~= w);
        assert(t.push(w1)[o.len() as int] == w1);
        assert(t.push(w1).update(o.len() as int, w1.push(c)) =~= t.push(w));
    }
}

/// A text of plain terms with operators between them splits back into
/// exactly those terms and operators.
pub proof fn law_tokens_of_joined(terms: Seq<Seq<char>>, ops: Seq<char>)
    requires
        terms.len() == ops.len() + 1,
        forall|i: int| 0 <= i < terms.len() ==> plain_term(#[trigger] terms[i]),
        forall|i: int| 0 <= i < ops.len() ==> is_operator(#[trigger] ops[i]),
    ensures
        tokenize(joined(terms, ops)) == (terms, ops),
    decreases terms.len(),
{
    if terms.len() == 1 {
        let e = Seq::<char>::empty();
        assert(tokenize(e) == (Seq::<Seq<char>>::empty(), Seq::<char>::empty()));
        assert(plain_term(terms[0]));
        lemma_tokenize_term(e, terms[0]);
        assert(e + terms[0] =~= terms[0]);
        assert(Seq::<Seq<char>>::empty().push(terms[0]) =~= terms);
        assert(ops =~= Seq::<char>::empty());
    } else {
        let t1 = terms.drop_last();
        let o1 = ops.drop_last();
        assert forall|i: int| 0 <= i < t1.len() implies plain_term(#[trigger] t1[i]) by {
            assert(t1[i] == terms[i]);
        }
        assert forall|i: int| 0 <= i < o1.len() implies is_operator(#[trigger] o1[i]) by {
            assert(o1[i] == ops[i]);
        }
        law_tokens_of_joined(t1, o1);
        let p = joined(t1, o1);
        let q = p.push(ops.last());
        assert(q.drop_last() =~= p);
        assert(is_operator(ops[ops.len() - 1]));
        assert(tokenize(q) == (t1, o1.push(ops.last())));
        assert(o1.push(ops.last()) =~= ops);
        assert(plain_term(terms[terms.len() - 1]));
        lemma_tokenize_term(q, terms.last());
        assert(p + seq![ops.last()] + terms.last() =~= q + terms.last());
        assert(t1.push(terms.last()) =~= terms);
    }
}

/// Splits `s` into its terms and operators, as `tokenize` says.
pub fn split_terms(s: &Vec<char>) -> (res: (Vec<Vec<char>>, Vec<char>))
    ensures
        views(res.0@) == tokenize(s@).0,
        res.1@ == tokenize(s@).1,
{
    let mut terms: Vec<Vec<char>> = Vec::new();
    let mut ops: Vec<char> = Vec::new();
    let n = s.len();
    let mut i: usize = 0;
    assert(s@.take(0) =~= Seq::<char>::empty());
    while i < n
        invariant
            n == s@.len(),
            i <= n,
            views(terms@) == tokenize(s@.take(i as int)).0,
            ops@ == tokenize(s@.take(i as int)).1,
            terms@.len() <= ops@.len() + 1,
        decreases n - i,
    {
        let c = s[i];
        assert(s@.take(i + 1).drop_last() =~= s@.take(i as int));
        assert(s@.take(i + 1).last() == c);
        let ghost before = views(terms@);
        if c == '+' || c == '*' || c == '/' || c == '^' {
            ops.push(c);
        } else if terms.len() <= ops.len() {
            let fresh = vec![c];
            assert(fresh@ =~= seq![c]);
            terms.push(fresh);
            assert(views(terms@) =~= before.push(seq![c]));
        } else {
            let mut last = terms.pop().unwrap();
            last.push(c);
            terms.push(last);
            assert(views(terms@) =~= before.update(ops@.len() as int, before[ops@.len() as int].push(c)));
        }
        i += 1;
    }
    assert(s@.take(n as int) =~= s@);
    (terms, ops)
}

/// The state of the scan for outermost groups after a prefix of the text.
pub struct GroupScan {
    /// Inside an outermost group.
    pub open: bool,
    /// How many inner groups are open.
    pub depth: nat,
    /// What the current outermost group holds so far.
    pub current: Seq<char>,
    /// The contents of the outermost groups closed so far, in order.
    pub groups: Seq<Seq<char>>,
}

/// One character of the scan. The first `(` outside a group opens one;
/// inside, `(` and `)` are kept and counted, and the `)` that matches the
/// opening one closes the group. A `)` outside any group is ignored.
pub open spec fn scan_step(st: GroupScan, c: char) -> GroupScan {
    if c == '(' {
        if !st.open {
            GroupScan { open: true, ..st }
        } else {
            GroupScan { depth: st.depth + 1, current: st.current.push(c), ..st }
        }
    } else if c == ')' && st.open {
        if st.depth == 0 {
            GroupScan {
                open: false,
                depth: 0,
                current: Seq::empty(),
                groups: st.groups.push(st.current),
            }
        } else {
            GroupScan { depth: (st.depth - 1) as nat, current: st.current.push(c), ..st }
        }
    } else if st.open {
        GroupScan { current: st.current.push(c), ..st }
    } else {
        st
    }
}

/// The scan over all of `s`.
pub open spec fn scan(s: Seq<char>) -> GroupScan
    decreases s.len(),
{
    if s.len() == 0 {
        GroupScan { open: false, depth: 0, current: Seq::empty(), groups: Seq::empty() }
    } else {
        scan_step(scan(s.drop_last()), s.last())
    }
}

/// The contents of the outermost parenthesised groups of `s` that are
/// closed, in the order in which they close.
pub open spec fn outer_groups(s: Seq<char>) -> Seq<Seq<char>> {
    scan(s).groups
}

/// Finds the outermost parenthesised groups of `s`, as `outer_groups` says.
pub fn paren_groups(s: &Vec<char>) -> (groups: Vec<Vec<char>>)
    ensures
        views(groups@) == outer_groups(s@),
{
    let mut groups: Vec<Vec<char>> = Vec::new();
    let mut current: Vec<char> = Vec::new();
    let mut open = false;
    let mut depth: usize = 0;
    let n = s.len();
    let mut i: usize = 0;
    assert(s@.take(0) =~= Seq::<char>::empty());
    while i < n
        invariant
            n == s@.len(),
            i <= n,
            depth <= i,
            open == scan(s@.take(i as int)).open,
            depth == scan(s@.take(i as int)).depth,
            current@ == scan(s@.take(i as int)).current,
            views(groups@) == scan(s@.take(i as int)).groups,
        decreases n - i,
    {
        let c = s[i];
        assert(s@.take(i + 1).drop_last() =~= s@.take(i as int));
        assert(s@.take(i + 1).last() == c);
        let ghost before = views(groups@);
        if c == '(' {
            if !open {
                open = true;
            } else {
                depth += 1;
                current.push(c);
            }
        } else if c == ')' && open {
            if depth == 0 {
                let done = current;
                current = Vec::new();
                groups.push(done);
                open = false;
                assert(views(groups@) =~= before.push(done@));
            } else {
                depth -= 1;
                current.push(c);
            }
        } else if open {
            current.push(c);
        }
        i += 1;
    }
    assert(s@.take(n as int) =~= s@);
    groups
}

/// The characters of `g` between an opening and a closing parenthesis.
pub open spec fn parenthesized(g: Seq<char>) -> Seq<char> {
    seq!['('] + g + seq![')']
}

/// `g` between an opening and a closing parenthesis.
pub fn wrap_parens(g: &Vec<char>) -> (r: Vec<char>)
    ensures
        r@ == parenthesized(g@),
{
    let mut r: Vec<char> = Vec::new();
    r.push('(');
    let n = g.len();
    let mut i: usize = 0;
    while i < n
        invariant
            n == g@.len(),
            i <= n,
            r@ =~= seq!['('] + g@.take(i as int),
        decreases n - i,
    {
        r.push(g[i]);
        i += 1;
        assert(r@ =~= seq!['('] + g@.take(i as int));
    }
    r.push(')');
    assert(g@.take(n as int) =~= g@);
    assert(r@ =~= parenthesized(g@));
    r
}

#[verifier::rlimit(40)]
proof fn lemma_tokenize_parts(s: Seq<char>)
    ensures
        tokenize(s).1 == s.filter(|c: char| is_operator(c)),
        tokenize(s).0.flatten_alt() == s.filter(|c: char| !is_operator(c)),
        tokenize(s).0.len() <= tokenize(s).1.len() + 1,
        forall|i: int|
            0 <= i < tokenize(s).0.len() ==> (#[trigger] tokenize(s).0[i]).len() > 0 && forall|j: int|
                0 <= j < tokenize(s).0[i].len() ==> !is_operator(#[trigger] tokenize(s).0[i][j]),
    decreases s.len(),
{
    reveal(Seq::filter);
    if s.len() > 0 {
        let p = s.drop_last();
        lemma_tokenize_parts(p);
        let (terms, ops) = tokenize(p);
        let c = s.last();
        if is_operator(c) {
        } else if terms.len() <= ops.len() {
            let t2 = terms.push(seq![c]);
            assert(t2.drop_last() =~= terms);
            assert(t2.flatten_alt() =~= terms.flatten_alt() + seq![c]);
            assert forall|i: int| 0 <= i < t2.len() implies (#[trigger] t2[i]).len() > 0 && forall|j: int|
                0 <= j < t2[i].len() ==> !is_operator(#[trigger] t2[i][j]) by {
                if i < terms.len() {
                    assert(t2[i] == terms[i]);
                }
            }
        } else {
            let k = ops.len() as int;
            assert(k == terms.len() - 1);
            let t2 = terms.update(k, terms[k].push(c));
            assert(t2.drop_last() =~= terms.drop_last());
            assert(terms.flatten_alt() == terms.drop_last().flatten_alt() + terms[k]);
            assert(t2.flatten_alt() =~= terms.flatten_alt() + seq![c]);
            assert forall|i: int| 0 <= i < t2.len() implies (#[trigger] t2[i]).len() > 0 && forall|j: int|
                0 <= j < t2[i].len() ==> !is_operator(#[trigger] t2[i][j]) by {
                if i < k {
                    assert(t2[i] == terms[i]);
                } else {
                    assert forall|j: int| 0 <= j < t2[i].len() implies !is_operator(#[trigger] t2[i][j]) by {
                        if j < terms[k].len() {
                            assert(t2[i][j] == terms[k][j]);
                        }
                    }
                }
            }
        }
    }
}

/// Splitting loses and invents nothing: the operators are those of the
/// text, in order; the terms, joined, are the rest of the text, in order;
/// every term is non-empty and holds no operator; and there is never more
/// than one term more than there are operators.
pub proof fn law_tokens_partition(s: Seq<char>)
    ensures
        tokenize(s).1 == s.filter(|c: char| is_operator(c)),
        tokenize(s).0.flatten() == s.filter(|c: char| !is_operator(c)),
        tokenize(s).0.len() <= tokenize(s).1.len() + 1,
        forall|i: int|
            0 <= i < tokenize(s).0.len() ==> (#[trigger] tokenize(s).0[i]).len() > 0 && forall|j: int|
                0 <= j < tokenize(s).0[i].len() ==> !is_operator(#[trigger] tokenize(s).0[i][j]),
{
    lemma_tokenize_parts(s);
    tokenize(s).0.lemma_flatten_and_flatten_alt_are_equivalent();
}

/// How many more `(` than `)` there are in `s`.
pub open spec fn nesting(s: Seq<char>) -> int
    decreases s.len(),
{
    if s.len() == 0 {
        0
    } else if s.last() == '(' {
        nesting(s.drop_last()) + 1
    } else if s.last() == ')' {
        nesting(s.drop_last()) - 1
    } else {
        nesting(s.drop_last())
    }
}

/// Every `)` of `g` closes a `(` of `g` before it, and every `(` is closed.
pub open spec fn balanced(g: Seq<char>) -> bool {
    &&& nesting(g) == 0
    &&& forall|k: int| 0 <= k <= g.len() ==> nesting(#[trigger] g.take(k)) >= 0
}

/// Where the open outermost group of `s` began.
spec fn open_start(s: Seq<char>) -> int
    decreases s.len(),
{
    if s.len() == 0 {
        0
    } else if s.last() == '(' && !scan(s.drop_last()).open {
        s.len() - 1
    } else {
        open_start(s.drop_last())
    }
}

/// Whether `parenthesized(g)` stands in `s` at some position.
pub open spec fn occurs_parenthesized(s: Seq<char>, g: Seq<char>) -> bool {
    exists|j: int|
        0 <= j && j + g.len() + 2 <= s.len() && #[trigger] s.subrange(j, j + g.len() + 2)
            == parenthesized(g)
}

#[verifier::rlimit(40)]
proof fn lemma_scan_inv(s: Seq<char>)
    ensures
        scan(s).open ==> {
            &&& 0 <= open_start(s) < s.len()
            &&& s[open_start(s)] == '('
            &&& s.subrange(open_start(s) + 1, s.len() as int) == scan(s).current
            &&& nesting(scan(s).current) == scan(s).depth
            &&& forall|k: int|
                0 <= k <= scan(s).current.len() ==> nesting(#[trigger] scan(s).current.take(k))
                    >= 0
        },
        !scan(s).open ==> scan(s).current.len() == 0 && scan(s).depth == 0,
        forall|i: int|
            0 <= i < scan(s).groups.len() ==> balanced(#[trigger] scan(s).groups[i])
                && occurs_parenthesized(s, scan(s).groups[i]),
    decreases s.len(),
{
    if s.len() > 0 {
        let p = s.drop_last();
        let c = s.last();
        lemma_scan_inv(p);
        let st = scan(p);
        let st2 = scan(s);
        assert(s =~= p.push(c));
        // earlier groups still stand in the longer text
        assert forall|i: int| 0 <= i < st.groups.len() implies occurs_parenthesized(
            s,
            #[trigger] st.groups[i],
        ) by {
            let g = st.groups[i];
            let j = choose|j: int|
                0 <= j && j + g.len() + 2 <= p.len() && #[trigger] p.subrange(j, j + g.len() + 2)
                    == parenthesized(g);
            assert(s.subrange(j, j + g.len() + 2) =~= p.subrange(j, j + g.len() + 2));
        }
        if st.open {
            let cur = st.current;
            let start = open_start(p);
            assert(open_start(s) == start);
            if c == ')' && st.depth == 0 {
                // the group closes
                assert(s.subrange(start, start + cur.len() + 2) =~= parenthesized(cur));
                assert(occurs_parenthesized(s, cur));
                assert(cur.take(cur.len() as int) =~= cur);
                assert(balanced(cur));
                assert forall|i: int| 0 <= i < st2.groups.len() implies balanced(
                    #[trigger] st2.groups[i],
                ) && occurs_parenthesized(s, st2.groups[i]) by {
                    if i < st.groups.len() {
                        assert(st2.groups[i] == st.groups[i]);
                    }
                }
            } else {
                let cur2 = cur.push(c);
                assert(st2.current == cur2);
                assert(cur2.drop_last() =~= cur);
                assert(s.subrange(start + 1, s.len() as int) =~= cur2);
                assert forall|k: int| 0 <= k <= cur2.len() implies nesting(#[trigger] cur2.take(k)) >= 0 by {
                    if k < cur2.len() {
                        assert(cur2.take(k) =~= cur.take(k));
                    } else {
                        assert(cur2.take(k) =~= cur2);
                        assert(cur2.take(k).drop_last() =~= cur);
                        assert(cur.take(cur.len() as int) =~= cur);
                    }
                }
            }
        } else {
            if c == '(' {
                assert(open_start(s) == s.len() - 1);
                assert(s.subrange(s.len() as int, s.len() as int) =~= st2.current);
                assert forall|k: int| 0 <= k <= st2.current.len() implies nesting(
                    #[trigger] st2.current.take(k),
                ) >= 0 by {
                    assert(st2.current.take(k).len() == 0);
                }
            }
        }
    }
}

/// Every outermost group that the scan reports is balanced, and stands in
/// the text between parentheses, so that replacing that text finds it.
pub proof fn law_groups_balanced_and_present(s: Seq<char>)
    ensures
        forall|i: int|
            0 <= i < outer_groups(s).len() ==> balanced(#[trigger] outer_groups(s)[i])
                && occurs_parenthesized(s, outer_groups(s)[i]),
{
    lemma_scan_inv(s);
}

/// `text` with the parenthesised form of each group replaced, one group
/// after the other, by the text of the group's value.
pub open spec fn substitute_all(text: Seq<char>, groups: Seq<Seq<char>>, values: Seq<Seq<char>>) -> Seq<char>
    decreases groups.len(),
{
    if groups.len() == 0 || values.len() == 0 {
        text
    } else {
        substitute_all(
            replaced(text, parenthesized(groups[0]), values[0]),
            groups.drop_first(),
            values.drop_first(),
        )
    }
}

/// Puts the value of each outermost group in place of the group, as
/// `substitute_all` says.
pub fn substitute_groups(text: &Vec<char>, groups: &Vec<Vec<char>>, values: &Vec<Vec<char>>) -> (r: Vec<char>)
    requires
        groups@.len() == values@.len(),
    ensures
        r@ == substitute_all(text@, views(groups@), views(values@)),
{
    let n = groups.len();
    let ghost gs = views(groups@);
    let ghost vs = views(values@);
    let mut cur: Vec<char> = text.clone();
    assert(cur@ == text@);
    let mut k: usize = 0;
    assert(gs.skip(0) =~= gs);
    assert(vs.skip(0) =~= vs);
    while k < n
        invariant
            n == groups@.len(),
            n == values@.len(),
            gs == views(groups@),
            vs == views(values@),
            k <= n,
            substitute_all(cur@, gs.skip(k as int), vs.skip(k as int)) == substitute_all(text@, gs, vs),
        decreases n - k,
    {
        let pat = wrap_parens(&groups[k]);
        assert(gs[k as int] == groups@[k as int]@);
        assert(vs[k as int] == values@[k as int]@);
        cur = replace_chars(&cur, &pat, &values[k]);
        assert(gs.skip(k as int).drop_first() =~= gs.skip(k + 1));
        assert(vs.skip(k as int).drop_first() =~= vs.skip(k + 1));
        k += 1;
    }
    assert(gs.skip(n as int).len() == 0);
    cur
}

/// The scan continued from `st` over `y`.
pub open spec fn scan_from(st: GroupScan, y: Seq<char>) -> GroupScan
    decreases y.len(),
{
    if y.len() == 0 {
        st
    } else {
        scan_step(scan_from(st, y.drop_last()), y.last())
    }
}

proof fn lemma_scan_concat(x: Seq<char>, y: Seq<char>)
    ensures
        scan(x + y) == scan_from(scan(x), y),
    decreases y.len(),
{
    if y.len() == 0 {
        assert(x + y =~= x);
    } else {
        lemma_scan_concat(x, y.drop_last());
        assert((x + y).drop_last() =~= x + y.drop_last());
        assert((x + y).last() == y.last());
    }
}

proof fn lemma_scan_closed(st: GroupScan, y: Seq<char>)
    requires
        !st.open,
        lacks(y, '('),
    ensures
        scan_from(st, y) == st,
    decreases y.len(),
{
    if y.len() > 0 {
        assert(lacks(y.drop_last(), '(')) by {
            assert forall|i: int| 0 <= i < y.drop_last().len() implies y.drop_last()[i] != '(' by {
                assert(y.drop_last()[i] == y[i]);
            }
        }
        lemma_scan_closed(st, y.drop_last());
        assert(y.last() != '(');
    }
}

proof fn lemma_scan_inside(st: GroupScan, e: Seq<char>, k: int)
    requires
        st.open,
        st.depth == 0,
        st.current.len() == 0,
        balanced(e),
        0 <= k <= e.len(),
    ensures
        scan_from(st, e.take(k)) == (GroupScan {
            open: true,
            depth: nesting(e.take(k)) as nat,
            current: e.take(k),
            groups: st.groups,
        }),
    decreases k,
{
    if k == 0 {
        assert(e.take(0) =~= st.current);
        assert(nesting(e.take(0)) == 0);
    } else {
        lemma_scan_inside(st, e, k - 1);
        let p = e.take(k);
        assert(p.drop_last() =~= e.take(k - 1));
        assert(p.last() == e[k - 1]);
        assert(nesting(p) >= 0);
        assert(e.take(k - 1).push(e[k - 1]) =~= p);
    }
}

proof fn lemma_scan_groups_split(st: GroupScan, y: Seq<char>)
    ensures
        scan_from(st, y) == (GroupScan {
            groups: st.groups + scan_from(GroupScan { groups: Seq::empty(), ..st }, y).groups,
            ..scan_from(GroupScan { groups: Seq::empty(), ..st }, y)
        }),
    decreases y.len(),
{
    let st0 = GroupScan { groups: Seq::empty(), ..st };
    if y.len() == 0 {
        assert(st.groups + st0.groups =~= st.groups);
    } else {
        lemma_scan_groups_split(st, y.drop_last());
        let a = scan_from(st0, y.drop_last());
        assert((st.groups + a.groups).push(a.current) =~= st.groups + a.groups.push(a.current));
    }
}

#[verifier::rlimit(40)]
proof fn lemma_first_group_scan(a: Seq<char>, e: Seq<char>, b: Seq<char>, v: Seq<char>)
    requires
        lacks(a, '('),
        balanced(e),
        lacks(v, '('),
    ensures
        outer_groups(a + parenthesized(e) + b) == seq![e] + outer_groups(a + v + b),
{
    let pe = parenthesized(e);
    let s = a + pe + b;
    let init = scan(Seq::<char>::empty());
    // the scan after `a`: nothing opened yet
    assert(Seq::<char>::empty() + a =~= a);
    lemma_scan_concat(Seq::<char>::empty(), a);
    lemma_scan_closed(init, a);
    assert(scan(a) == init);
    // then `(`, the balanced contents, and the closing `)`
    let st1 = scan_step(init, '(');
    lemma_scan_inside(st1, e, e.len() as int);
    assert(e.take(e.len() as int) =~= e);
    let after = scan_step(scan_from(st1, e), ')');
    assert(after == GroupScan {
        open: false,
        depth: 0,
        current: Seq::empty(),
        groups: seq![e],
    });
    assert(pe =~= seq!['('] + e + seq![')']);
    lemma_scan_concat(a, seq!['(']);
    assert(scan(a + seq!['(']) == st1) by {
        assert(seq!['('].drop_last() =~= Seq::<char>::empty());
        assert(scan_from(init, seq!['('].drop_last()) == init);
        assert(scan_from(init, seq!['(']) == st1);
    }
    lemma_scan_concat(a + seq!['('], e);
    lemma_scan_concat(a + seq!['('] + e, seq![')']);
    assert(scan(a + seq!['('] + e) == scan_from(st1, e));
    assert(scan_from(scan_from(st1, e), seq![')']) == after) by {
        assert(seq![')'].drop_last() =~= Seq::<char>::empty());
        assert(scan_from(scan_from(st1, e), seq![')'].drop_last()) == scan_from(st1, e));
    }
    assert(scan(a + seq!['('] + e + seq![')']) == after);
    assert(a + seq!['('] + e + seq![')'] =~= a + pe);
    lemma_scan_concat(a + pe, b);
    assert(s =~= (a + pe) + b);
    lemma_scan_groups_split(after, b);
    let closed = GroupScan { groups: Seq::<Seq<char>>::empty(), ..after };
    assert(closed == init);
    // the shorter text: `a` and `v` open nothing
    let av = a + v;
    lemma_scan_concat(a, v);
    lemma_scan_closed(init, v);
    lemma_scan_concat(av, b);
    assert(a + v + b =~= av + b);
    assert(outer_groups(s) =~= seq![e] + outer_groups(a + v + b));
}

proof fn lemma_first_group_replace(a: Seq<char>, e: Seq<char>, b: Seq<char>, v: Seq<char>)
    requires
        lacks(a, '('),
        forall|j: int| 0 <= j < b.len() ==> !starts_with(#[trigger] b.skip(j), parenthesized(e)),
    ensures
        replaced(a + parenthesized(e) + b, parenthesized(e), v) == a + v + b,
{
    let pe = parenthesized(e);
    assert(pe[0] == '(');
    lemma_replaced_prefix(a, pe + b, pe, v);
    assert(a + pe + b =~= a + (pe + b));
    assert(starts_with(pe + b, pe)) by {
        assert((pe + b).take(pe.len() as int) =~= pe);
    }
    assert((pe + b).skip(pe.len() as int) =~= b);
    lemma_replaced_absent(b, pe, v);
    assert(replaced(pe + b, pe, v) == v + b);
    assert(a + (v + b) =~= a + v + b);
}

/// Where a text begins with a part without `(`, then a balanced group in
/// parentheses: that group is its first outermost group, and the rest of
/// its groups are those of the text with the group replaced by any text
/// without `(`. Where the parenthesised group does not occur again later,
/// replacing it by that text changes just that place, so putting the
/// values of the groups in works as on the shorter text.
pub proof fn law_first_group(a: Seq<char>, e: Seq<char>, b: Seq<char>, v: Seq<char>, vs: Seq<Seq<char>>)
    requires
        lacks(a, '('),
        balanced(e),
        lacks(v, '('),
    ensures
        outer_groups(a + parenthesized(e) + b) == seq![e] + outer_groups(a + v + b),
        (forall|j: int| 0 <= j < b.len() ==> !starts_with(#[trigger] b.skip(j), parenthesized(e)))
            ==> {
            &&& replaced(a + parenthesized(e) + b, parenthesized(e), v) == a + v + b
            &&& substitute_all(
                a + parenthesized(e) + b,
                outer_groups(a + parenthesized(e) + b),
                seq![v] + vs,
            ) == substitute_all(a + v + b, outer_groups(a + v + b), vs)
        },
{
    let s = a + parenthesized(e) + b;
    lemma_first_group_scan(a, e, b, v);
    if forall|j: int| 0 <= j < b.len() ==> !starts_with(#[trigger] b.skip(j), parenthesized(e)) {
        lemma_first_group_replace(a, e, b, v);
        let gs = outer_groups(s);
        let ws = seq![v] + vs;
        assert(gs[0] == e);
        assert(ws[0] == v);
        assert(gs.drop_first() =~= outer_groups(a + v + b));
        assert(ws.drop_first() =~= vs);
    }
}

/// Putting the values of the groups in changes only the groups: with no
/// group the text is kept as it is, and a group that stands after a part
/// without `(` and nowhere later is replaced, parentheses and all, by its
/// value in that one place, before the next groups are put in.
pub proof fn law_groups_replaced_in_place(
    text: Seq<char>,
    values: Seq<Seq<char>>,
    a: Seq<char>,
    g: Seq<char>,
    b: Seq<char>,
    v: Seq<char>,
    gs: Seq<Seq<char>>,
    vs: Seq<Seq<char>>,
)
    ensures
        substitute_all(text, Seq::empty(), values) == text,
        lacks(a, '(') && (forall|j: int|
            0 <= j < b.len() ==> !starts_with(#[trigger] b.skip(j), parenthesized(g))) ==> {
            &&& substitute_all(a + parenthesized(g) + b, seq![g], seq![v]) == a + v + b
            &&& substitute_all(a + parenthesized(g) + b, seq![g] + gs, seq![v] + vs)
                == substitute_all(a + v + b, gs, vs)
        },
{
    if lacks(a, '(') && (forall|j: int|
        0 <= j < b.len() ==> !starts_with(#[trigger] b.skip(j), parenthesized(g))) {
        lemma_first_group_replace(a, g, b, v);
        assert(seq![g].drop_first() =~= Seq::<Seq<char>>::empty());
        assert(seq![v].drop_first() =~= Seq::<Seq<char>>::empty());
        assert((seq![g] + gs)[0] == g);
        assert((seq![v] + vs)[0] == v);
        assert((seq![g] + gs).drop_first() =~= gs);
        assert((seq![v] + vs).drop_first() =~= vs);
        let s = a + parenthesized(g) + b;
        let e = Seq::<Seq<char>>::empty();
        assert(substitute_all(a + v + b, e, e) == a + v + b);
        assert(substitute_all(s, seq![g], seq![v]) == substitute_all(
            replaced(s, parenthesized(g), v),
            seq![g].drop_first(),
            seq![v].drop_first(),
        ));
        assert(substitute_all(s, seq![g] + gs, seq![v] + vs) == substitute_all(
            replaced(s, parenthesized(g), v),
            gs,
            vs,
        ));
    }
}

} // verus!
