//! What holds of every tree that `reduction` builds: operations are
//! grouped by precedence and from the left, and the terms stand in it in
//! their order, each once.

use vstd::prelude::*;
use vstd::seq_lib::lemma_flatten_concat;
use crate::tokens::{is_operator, joined, plain_term, tokenize};
use crate::tree::{combine, level_of, level_op, level_pass, pow_pass, reduction, term_list, BinOp, Expr};

verus! {

/// How tightly an operation binds: `+` and `-` 1, `*` and `/` 2, `^` 3.
pub open spec fn prec(op: BinOp) -> nat {
    match op {
        BinOp::Add | BinOp::Sub => 1,
        BinOp::Mul | BinOp::Div => 2,
        BinOp::Pow => 3,
    }
}

/// The loosest binding in `e`; a term binds tighter than any operation.
pub open spec fn min_prec(e: Expr) -> nat
    decreases e,
{
    match e {
        Expr::Term(_) => 4,
        Expr::Apply(op, l, r) => {
            let a = prec(op);
            let b = min_prec(*l);
            let c = min_prec(*r);
            if a <= b && a <= c {
                a
            } else if b <= c {
                b
            } else {
                c
            }
        },
    }
}

/// Every operation's left operand binds at least as tightly as the
/// operation, and its right operand binds more tightly: tighter operations
/// are grouped first, and operations of one level from the left.
pub open spec fn well_shaped(e: Expr) -> bool
    decreases e,
{
    match e {
        Expr::Term(_) => true,
        Expr::Apply(op, l, r) => {
            &&& well_shaped(*l)
            &&& well_shaped(*r)
            &&& min_prec(*l) >= prec(op)
            &&& min_prec(*r) > prec(op)
        },
    }
}

/// The terms of `e`, from left to right.
pub open spec fn leaves(e: Expr) -> Seq<usize>
    decreases e,
{
    match e {
        Expr::Term(i) => seq![i],
        Expr::Apply(_, l, r) => leaves(*l) + leaves(*r),
    }
}

/// The terms of the entries of `t`, from left to right.
pub open spec fn all_leaves(t: Seq<Expr>) -> Seq<usize>
    decreases t.len(),
{
    if t.len() == 0 {
        Seq::empty()
    } else {
        all_leaves(t.drop_last()) + leaves(t.last())
    }
}

/// Whether a character is one of the five operators.
pub open spec fn is_op_char(c: char) -> bool {
    level_of(c) > 0
}

spec fn shaped_from(t: Seq<Expr>, x: nat, level: nat) -> bool {
    forall|i: int|
        0 <= i < t.len() ==> {
            &&& well_shaped(#[trigger] t[i])
            &&& min_prec(t[i]) >= level
            &&& (i > x ==> min_prec(t[i]) > level)
        }
}

spec fn shaped_at_least(t: Seq<Expr>, level: nat) -> bool {
    forall|i: int| 0 <= i < t.len() ==> well_shaped(#[trigger] t[i]) && min_prec(t[i]) >= level
}

spec fn all_op_chars(o: Seq<char>) -> bool {
    forall|i: int| 0 <= i < o.len() ==> is_op_char(#[trigger] o[i])
}

proof fn lemma_combine_index(t: Seq<Expr>, x: int, op: BinOp)
    requires
        0 <= x,
        x + 1 < t.len(),
    ensures
        combine(t, x, op).len() == t.len() - 1,
        combine(t, x, op)[x] == Expr::Apply(op, Box::new(t[x]), Box::new(t[x + 1])),
        forall|i: int| 0 <= i < x ==> #[trigger] combine(t, x, op)[i] == t[i],
        forall|i: int| x < i < t.len() - 1 ==> #[trigger] combine(t, x, op)[i] == t[i + 1],
{
}

proof fn lemma_all_leaves_concat(a: Seq<Expr>, b: Seq<Expr>)
    ensures
        all_leaves(a + b) == all_leaves(a) + all_leaves(b),
    decreases b.len(),
{
    if b.len() == 0 {
        assert(a + b =~= a);
        assert(all_leaves(b) =~= Seq::<usize>::empty());
        assert(all_leaves(a) + all_leaves(b) =~= all_leaves(a));
    } else {
        lemma_all_leaves_concat(a, b.drop_last());
        assert((a + b).drop_last() =~= a + b.drop_last());
        assert((a + b).last() == b.last());
        assert(all_leaves(a + b) =~= all_leaves(a) + all_leaves(b));
    }
}

proof fn lemma_all_leaves_single(e: Expr)
    ensures
        all_leaves(seq![e]) == leaves(e),
{
    let d = seq![e].drop_last();
    assert(d =~= Seq::<Expr>::empty());
    assert(all_leaves(d) == Seq::<usize>::empty());
    assert(seq![e].last() == e);
    assert(all_leaves(seq![e]) =~= leaves(e));
}

proof fn lemma_combine_leaves(t: Seq<Expr>, x: int, op: BinOp)
    requires
        0 <= x,
        x + 1 < t.len(),
    ensures
        all_leaves(combine(t, x, op)) == all_leaves(t),
{
    let a = t.take(x);
    let c = t.skip(x + 2);
    let e = Expr::Apply(op, Box::new(t[x]), Box::new(t[x + 1]));
    assert(t =~= a + seq![t[x]] + seq![t[x + 1]] + c);
    lemma_all_leaves_concat(a + seq![t[x]] + seq![t[x + 1]], c);
    lemma_all_leaves_concat(a + seq![t[x]], seq![t[x + 1]]);
    lemma_all_leaves_concat(a, seq![t[x]]);
    lemma_all_leaves_concat(a + seq![e], c);
    lemma_all_leaves_concat(a, seq![e]);
    lemma_all_leaves_single(t[x]);
    lemma_all_leaves_single(t[x + 1]);
    lemma_all_leaves_single(e);
    assert(leaves(e) == leaves(t[x]) + leaves(t[x + 1]));
    assert(all_leaves(combine(t, x, op)) =~= all_leaves(t));
}

proof fn lemma_combine_shape(t: Seq<Expr>, x: nat, op: BinOp, level: nat)
    requires
        x + 1 < t.len(),
        shaped_from(t, x, level),
        prec(op) == level,
    ensures
        shaped_from(combine(t, x as int, op), x, level),
{
    lemma_combine_index(t, x as int, op);
    let c = combine(t, x as int, op);
    assert forall|i: int| 0 <= i < c.len() implies {
        &&& well_shaped(#[trigger] c[i])
        &&& min_prec(c[i]) >= level
        &&& (i > x ==> min_prec(c[i]) > level)
    } by {
        if i < x {
            assert(c[i] == t[i]);
        } else if i == x {
            assert(well_shaped(t[x as int]));
            assert(min_prec(t[(x + 1) as int]) > level);
        } else {
            assert(c[i] == t[i + 1]);
        }
    }
}

proof fn lemma_level_op(c: char, level: nat)
    requires
        1 <= level <= 3,
    ensures
        level_op(c, level) is Some <==> level_of(c) == level,
        level_op(c, level) matches Some(op) ==> prec(op) == level,
{
}

#[verifier::rlimit(40)]
proof fn lemma_pow_pass(t: Seq<Expr>, o: Seq<char>, x: nat)
    requires
        shaped_from(t, x, 3),
        x <= o.len(),
        forall|i: int| 0 <= i < x ==> level_of(#[trigger] o[i]) != 3,
    ensures
        pow_pass(t, o, x) matches Some(p) ==> {
            &&& shaped_at_least(p.0, 3)
            &&& all_leaves(p.0) == all_leaves(t)
            &&& forall|i: int| 0 <= i < p.1.len() ==> level_of(#[trigger] p.1[i]) < 3
            &&& (all_op_chars(o) ==> all_op_chars(p.1))
            &&& p.0.len() >= t.len() - o.len()
        },
    decreases o.len() - x,
{
    if x >= o.len() {
    } else if o[x as int] == '^' {
        if x + 1 < t.len() {
            let t2 = combine(t, x as int, BinOp::Pow);
            let o2 = o.remove(x as int);
            lemma_combine_shape(t, x, BinOp::Pow, 3);
            lemma_combine_leaves(t, x as int, BinOp::Pow);
            lemma_combine_index(t, x as int, BinOp::Pow);
            assert forall|i: int| 0 <= i < x implies level_of(#[trigger] o2[i]) != 3 by {
                assert(o2[i] == o[i]);
            }
            assert(all_op_chars(o) ==> all_op_chars(o2)) by {
                if all_op_chars(o) {
                    assert forall|i: int| 0 <= i < o2.len() implies is_op_char(#[trigger] o2[i]) by {
                        if i < x {
                            assert(o2[i] == o[i]);
                        } else {
                            assert(o2[i] == o[i + 1]);
                        }
                    }
                }
            }
            lemma_pow_pass(t2, o2, x);
        }
    } else {
        assert(forall|i: int| 0 <= i < x + 1 ==> level_of(#[trigger] o[i]) != 3);
        lemma_pow_pass(t, o, x + 1);
    }
}

#[verifier::rlimit(40)]
proof fn lemma_level_pass(t: Seq<Expr>, o: Seq<char>, x: nat, level: nat)
    requires
        1 <= level <= 2,
        shaped_from(t, x, level),
        x <= o.len(),
        forall|i: int| 0 <= i < x ==> level_of(#[trigger] o[i]) != level,
        forall|i: int| 0 <= i < t.len() - 1 && i < o.len() ==> level_of(#[trigger] o[i]) <= level,
    ensures
        level_pass(t, o, x, level) matches Some(p) ==> {
            &&& shaped_at_least(p.0, level)
            &&& all_leaves(p.0) == all_leaves(t)
            &&& p.0.len() >= 1
            &&& p.0.len() - 1 <= p.1.len()
            &&& forall|i: int| 0 <= i < p.0.len() - 1 ==> level_of(#[trigger] p.1[i]) < level
            &&& (all_op_chars(o) ==> all_op_chars(p.1))
        },
    decreases t.len() - x,
{
    if t.len() == 0 {
    } else if x + 1 >= t.len() {
        assert forall|i: int| 0 <= i < t.len() - 1 implies level_of(#[trigger] o[i]) < level by {
            assert(level_of(o[i]) != level);
        }
    } else if x >= o.len() {
    } else {
        lemma_level_op(o[x as int], level);
        match level_op(o[x as int], level) {
            Some(op) => {
                let t2 = combine(t, x as int, op);
                let o2 = o.remove(x as int);
                lemma_combine_shape(t, x, op, level);
                lemma_combine_leaves(t, x as int, op);
                lemma_combine_index(t, x as int, op);
                assert forall|i: int| 0 <= i < x implies level_of(#[trigger] o2[i]) != level by {
                    assert(o2[i] == o[i]);
                }
                assert forall|i: int| 0 <= i < t2.len() - 1 && i < o2.len() implies level_of(
                    #[trigger] o2[i],
                ) <= level by {
                    if i < x {
                        assert(o2[i] == o[i]);
                    } else {
                        assert(o2[i] == o[i + 1]);
                    }
                }
                assert(all_op_chars(o) ==> all_op_chars(o2)) by {
                    if all_op_chars(o) {
                        assert forall|i: int| 0 <= i < o2.len() implies is_op_char(#[trigger] o2[i]) by {
                            if i < x {
                                assert(o2[i] == o[i]);
                            } else {
                                assert(o2[i] == o[i + 1]);
                            }
                        }
                    }
                }
                lemma_level_pass(t2, o2, x, level);
            },
            None => {
                assert(forall|i: int| 0 <= i < x + 1 ==> level_of(#[trigger] o[i]) != level);
                lemma_level_pass(t, o, x + 1, level);
            },
        }
    }
}

proof fn lemma_term_list(n: nat)
    ensures
        shaped_from(term_list(n), 0, 3),
        all_leaves(term_list(n)) == Seq::new(n, |i: int| i as usize),
    decreases n,
{
    if n > 0 {
        lemma_term_list((n - 1) as nat);
        assert(term_list(n).drop_last() =~= term_list((n - 1) as nat));
        assert(all_leaves(term_list(n)) =~= Seq::new(n, |i: int| i as usize));
    }
}

proof fn lemma_reduction(n: nat, ops: Seq<char>)
    requires
        reduction(n, ops) is Some,
    ensures
        well_shaped(reduction(n, ops).unwrap()),
        all_op_chars(ops) ==> leaves(reduction(n, ops).unwrap()) == Seq::new(
            n,
            |i: int| i as usize,
        ),
{
    lemma_term_list(n);
    let t0 = term_list(n);
    lemma_pow_pass(t0, ops, 0);
    let (t1, o1) = pow_pass(t0, ops, 0).unwrap();
    assert(shaped_from(t1, 0, 2));
    assert(forall|i: int| 0 <= i < t1.len() - 1 && i < o1.len() ==> level_of(#[trigger] o1[i]) <= 2);
    lemma_level_pass(t1, o1, 0, 2);
    let (t2, o2) = level_pass(t1, o1, 0, 2).unwrap();
    assert(shaped_from(t2, 0, 1));
    lemma_level_pass(t2, o2, 0, 1);
    let (t3, o3) = level_pass(t2, o2, 0, 1).unwrap();
    assert(well_shaped(t3[0]));
    if all_op_chars(ops) {
        if t3.len() >= 2 {
            assert(0 < o3.len() && level_of(o3[0]) < 1);
            assert(is_op_char(o3[0]));
        }
        assert(t3 =~= seq![t3[0]]);
        lemma_all_leaves_single(t3[0]);
    }
}

/// Precedence and grouping: in the tree that `reduction` builds, whatever
/// the operators, every operation's left operand binds at least as tightly
/// as the operation and its right operand more tightly. So `^` is done
/// before `*` and `/`, which are done before `+` and `-`, and operations of
/// one level are grouped from the left.
pub proof fn law_precedence(n: nat, ops: Seq<char>)
    requires
        reduction(n, ops) is Some,
    ensures
        well_shaped(reduction(n, ops).unwrap()),
{
    lemma_reduction(n, ops);
}

/// Every term is used once and in order: where all the operators are among
/// `+ - * / ^`, the terms of the tree, read from left to right, are the
/// positions `0` to `n - 1`.
pub proof fn law_terms_in_order(n: nat, ops: Seq<char>)
    requires
        reduction(n, ops) is Some,
        forall|i: int| 0 <= i < ops.len() ==> is_op_char(#[trigger] ops[i]),
    ensures
        leaves(reduction(n, ops).unwrap()) == Seq::new(n, |i: int| i as usize),
{
    lemma_reduction(n, ops);
}

proof fn lemma_pow_pass_balanced(t: Seq<Expr>, o: Seq<char>, x: nat)
    requires
        t.len() == o.len() + 1,
        x <= o.len(),
    ensures
        pow_pass(t, o, x) matches Some(p) && p.0.len() == p.1.len() + 1,
    decreases o.len() - x,
{
    if x < o.len() {
        if o[x as int] == '^' {
            lemma_combine_index(t, x as int, BinOp::Pow);
            lemma_pow_pass_balanced(combine(t, x as int, BinOp::Pow), o.remove(x as int), x);
        } else {
            lemma_pow_pass_balanced(t, o, x + 1);
        }
    }
}

proof fn lemma_level_pass_balanced(t: Seq<Expr>, o: Seq<char>, x: nat, level: nat)
    requires
        t.len() == o.len() + 1,
        x <= o.len(),
    ensures
        level_pass(t, o, x, level) matches Some(p) && p.0.len() == p.1.len() + 1,
    decreases t.len() - x,
{
    if x + 1 < t.len() {
        match level_op(o[x as int], level) {
            Some(op) => {
                lemma_combine_index(t, x as int, op);
                lemma_level_pass_balanced(combine(t, x as int, op), o.remove(x as int), x, level);
            },
            None => lemma_level_pass_balanced(t, o, x + 1, level),
        }
    }
}

/// An equation with one term more than it has operators always reduces:
/// no pass fails on it, whatever the operators.
pub proof fn law_well_formed_reduces(n: nat, ops: Seq<char>)
    requires
        n == ops.len() + 1,
    ensures
        reduction(n, ops) is Some,
{
    lemma_pow_pass_balanced(term_list(n), ops, 0);
    let (t1, o1) = pow_pass(term_list(n), ops, 0).unwrap();
    lemma_level_pass_balanced(t1, o1, 0, 2);
    let (t2, o2) = level_pass(t1, o1, 0, 2).unwrap();
    lemma_level_pass_balanced(t2, o2, 0, 1);
}

/// The operation that an operator character stands for.
pub open spec fn char_op(c: char) -> BinOp {
    if c == '^' {
        BinOp::Pow
    } else if c == '*' {
        BinOp::Mul
    } else if c == '/' {
        BinOp::Div
    } else if c == '-' {
        BinOp::Sub
    } else {
        BinOp::Add
    }
}

/// The operations of `e`, from left to right.
pub open spec fn inorder_ops(e: Expr) -> Seq<BinOp>
    decreases e,
{
    match e {
        Expr::Term(_) => Seq::empty(),
        Expr::Apply(op, l, r) => inorder_ops(*l) + seq![op] + inorder_ops(*r),
    }
}

/// The operations of the entries of `t`, each entry but the last followed
/// by the operator after it.
spec fn blocks(t: Seq<Expr>, o: Seq<char>) -> Seq<Seq<BinOp>> {
    Seq::new(
        t.len(),
        |i: int|
            if i + 1 < t.len() {
                inorder_ops(t[i]).push(char_op(o[i]))
            } else {
                inorder_ops(t[i])
            },
    )
}

proof fn lemma_flatten_three(a: Seq<Seq<BinOp>>, m: Seq<BinOp>, b: Seq<Seq<BinOp>>)
    ensures
        (a + seq![m] + b).flatten() == a.flatten() + m + b.flatten(),
{
    lemma_flatten_concat(a + seq![m], b);
    lemma_flatten_concat(a, seq![m]);
    seq![m].lemma_flatten_one_element();
}

#[verifier::rlimit(40)]
proof fn lemma_combine_blocks(t: Seq<Expr>, o: Seq<char>, x: int, op: BinOp)
    requires
        t.len() == o.len() + 1,
        0 <= x,
        x + 1 < t.len(),
        op == char_op(o[x]),
    ensures
        blocks(combine(t, x, op), o.remove(x)).flatten() == blocks(t, o).flatten(),
{
    lemma_combine_index(t, x, op);
    let b = blocks(t, o);
    let t2 = combine(t, x, op);
    let o2 = o.remove(x);
    let b2 = blocks(t2, o2);
    assert(b2 =~= b.take(x) + seq![b[x] + b[x + 1]] + b.skip(x + 2)) by {
        assert forall|i: int| 0 <= i < b2.len() implies b2[i] == (b.take(x) + seq![b[x] + b[x + 1]]
            + b.skip(x + 2))[i] by {
            if i < x {
                assert(o2[i] == o[i]);
            } else if i == x {
                if x + 2 < t.len() {
                    assert(o2[x] == o[x + 1]);
                }
                assert(b2[x] =~= b[x] + b[x + 1]);
            } else if i + 1 < t2.len() {
                assert(o2[i] == o[i + 1]);
            }
        }
    }
    assert(b =~= b.take(x) + seq![b[x] + b[x + 1]].take(0) + seq![b[x], b[x + 1]] + b.skip(x + 2));
    lemma_flatten_three(b.take(x), b[x] + b[x + 1], b.skip(x + 2));
    lemma_flatten_concat(b.take(x) + seq![b[x], b[x + 1]], b.skip(x + 2));
    lemma_flatten_concat(b.take(x), seq![b[x], b[x + 1]]);
    lemma_flatten_concat(seq![b[x]], seq![b[x + 1]]);
    assert(seq![b[x]] + seq![b[x + 1]] =~= seq![b[x], b[x + 1]]);
    seq![b[x]].lemma_flatten_one_element();
    seq![b[x + 1]].lemma_flatten_one_element();
    assert(b.take(x) + seq![b[x]].take(0) + seq![b[x], b[x + 1]] =~= b.take(x) + seq![b[x], b[x + 1]]);
}

proof fn lemma_pow_pass_ops(t: Seq<Expr>, o: Seq<char>, x: nat)
    requires
        t.len() == o.len() + 1,
        x <= o.len(),
    ensures
        pow_pass(t, o, x) matches Some(p) ==> blocks(p.0, p.1).flatten() == blocks(t, o).flatten()
            && p.0.len() == p.1.len() + 1,
    decreases o.len() - x,
{
    if x < o.len() {
        if o[x as int] == '^' {
            lemma_combine_index(t, x as int, BinOp::Pow);
            lemma_combine_blocks(t, o, x as int, BinOp::Pow);
            lemma_pow_pass_ops(combine(t, x as int, BinOp::Pow), o.remove(x as int), x);
        } else {
            lemma_pow_pass_ops(t, o, x + 1);
        }
    }
}

proof fn lemma_level_pass_ops(t: Seq<Expr>, o: Seq<char>, x: nat, level: nat)
    requires
        1 <= level <= 2,
        t.len() == o.len() + 1,
        x <= o.len(),
    ensures
        level_pass(t, o, x, level) matches Some(p) ==> blocks(p.0, p.1).flatten() == blocks(
            t,
            o,
        ).flatten() && p.0.len() == p.1.len() + 1,
    decreases t.len() - x,
{
    if x + 1 < t.len() {
        match level_op(o[x as int], level) {
            Some(op) => {
                assert(op == char_op(o[x as int]));
                lemma_combine_index(t, x as int, op);
                lemma_combine_blocks(t, o, x as int, op);
                lemma_level_pass_ops(combine(t, x as int, op), o.remove(x as int), x, level);
            },
            None => lemma_level_pass_ops(t, o, x + 1, level),
        }
    }
}

proof fn lemma_blocks_of_terms(t: Seq<Expr>, o: Seq<char>)
    requires
        t.len() == o.len() + 1,
        forall|i: int| 0 <= i < t.len() ==> (#[trigger] t[i]) is Term,
    ensures
        blocks(t, o).flatten() == o.map_values(|c: char| char_op(c)),
    decreases o.len(),
{
    let b = blocks(t, o);
    if o.len() == 0 {
        assert(inorder_ops(t[0]) =~= Seq::<BinOp>::empty());
        b.lemma_flatten_one_element();
        assert(o.map_values(|c: char| char_op(c)) =~= Seq::<BinOp>::empty());
    } else {
        let t1 = t.drop_first();
        let o1 = o.drop_first();
        assert forall|i: int| 0 <= i < t1.len() implies (#[trigger] t1[i]) is Term by {
            assert(t1[i] == t[i + 1]);
        }
        lemma_blocks_of_terms(t1, o1);
        assert(inorder_ops(t[0]) =~= Seq::<BinOp>::empty());
        assert(b =~= seq![seq![char_op(o[0])]] + blocks(t1, o1));
        lemma_flatten_concat(seq![seq![char_op(o[0])]], blocks(t1, o1));
        seq![seq![char_op(o[0])]].lemma_flatten_one_element();
        assert(o.map_values(|c: char| char_op(c)) =~= seq![char_op(o[0])] + o1.map_values(
            |c: char| char_op(c),
        ));
    }
}

/// A well-formed list of terms and operators reduces to a tree in which the
/// terms stand in order, the operations are grouped by precedence and from
/// the left, and the operations, read from left to right, are the
/// operators in the order they were written.
#[verifier::rlimit(40)]
pub proof fn law_operators_in_order(n: nat, ops: Seq<char>)
    requires
        n == ops.len() + 1,
        forall|i: int| 0 <= i < ops.len() ==> is_op_char(#[trigger] ops[i]),
    ensures
        reduction(n, ops) matches Some(e) && {
            &&& well_shaped(e)
            &&& leaves(e) == Seq::new(n, |i: int| i as usize)
            &&& inorder_ops(e) == ops.map_values(|c: char| char_op(c))
        },
{
    law_well_formed_reduces(n, ops);
    lemma_reduction(n, ops);
    let t0 = term_list(n);
    lemma_blocks_of_terms(t0, ops);
    lemma_pow_pass_ops(t0, ops, 0);
    let (t1, o1) = pow_pass(t0, ops, 0).unwrap();
    lemma_level_pass_ops(t1, o1, 0, 2);
    let (t2, o2) = level_pass(t1, o1, 0, 2).unwrap();
    lemma_level_pass_ops(t2, o2, 0, 1);
    let (t3, o3) = level_pass(t2, o2, 0, 1).unwrap();
    // every operator was used up: what is left of them is at no level
    lemma_term_list(n);
    lemma_pow_pass(t0, ops, 0);
    assert(shaped_from(t1, 0, 2));
    assert(forall|i: int| 0 <= i < t1.len() - 1 && i < o1.len() ==> level_of(#[trigger] o1[i]) <= 2);
    lemma_level_pass(t1, o1, 0, 2);
    assert(shaped_from(t2, 0, 1));
    lemma_level_pass(t2, o2, 0, 1);
    if o3.len() > 0 {
        assert(level_of(o3[0]) < 1);
        assert(is_op_char(o3[0]));
    }
    assert(t3.len() == 1);
    let b = blocks(t3, o3);
    assert(b =~= seq![inorder_ops(t3[0])]);
    b.lemma_flatten_one_element();
}

/// A text of plain terms with an operator between each two splits back
/// into exactly those terms and operators, and these always reduce to a
/// tree with the terms in order, operations grouped by precedence and from
/// the left, and the operators in the order they were written.
pub proof fn law_well_formed_text(terms: Seq<Seq<char>>, ops: Seq<char>)
    requires
        terms.len() == ops.len() + 1,
        forall|i: int| 0 <= i < terms.len() ==> plain_term(#[trigger] terms[i]),
        forall|i: int| 0 <= i < ops.len() ==> is_operator(#[trigger] ops[i]),
    ensures
        tokenize(joined(terms, ops)) == (terms, ops),
        reduction(terms.len(), ops) matches Some(e) && {
            &&& well_shaped(e)
            &&& leaves(e) == Seq::new(terms.len(), |i: int| i as usize)
            &&& inorder_ops(e) == ops.map_values(|c: char| char_op(c))
        },
{
    crate::tokens::law_tokens_of_joined(terms, ops);
    assert forall|i: int| 0 <= i < ops.len() implies is_op_char(#[trigger] ops[i]) by {
        assert(is_operator(ops[i]));
    }
    law_operators_in_order(terms.len(), ops);
}

} // verus!
