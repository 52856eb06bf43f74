//! The order in which the operations between the terms of an equation are
//! carried out, as a tree over the terms' positions.

use vstd::prelude::*;

verus! {

/// An arithmetic operation between two values.
#[derive(Clone, Copy, Debug, PartialEq, Eq, Structural)]
pub enum BinOp {
    Add,
    Sub,
    Mul,
    Div,
    Pow,
}

/// An expression over the terms of an equation, each named by its
/// position among the terms.
#[derive(Debug)]
pub enum Expr {
    Term(usize),
    Apply(BinOp, Box<Expr>, Box<Expr>),
}

/// The level of an operator character: `^` is 3, `*` and `/` are 2, `+`
/// and `-` are 1, and any other character is 0.
pub open spec fn level_of(c: char) -> nat {
    if c == '^' {
        3
    } else if c == '*' || c == '/' {
        2
    } else if c == '+' || c == '-' {
        1
    } else {
        0
    }
}

/// The operation that a character stands for at a level, if it is of
/// that level.
pub open spec fn level_op(c: char, level: nat) -> Option<BinOp> {
    if level == 3 && c == '^' {
        Some(BinOp::Pow)
    } else if level == 2 && c == '*' {
        Some(BinOp::Mul)
    } else if level == 2 && c == '/' {
        Some(BinOp::Div)
    } else if level == 1 && c == '+' {
        Some(BinOp::Add)
    } else if level == 1 && c == '-' {
        Some(BinOp::Sub)
    } else {
        None
    }
}

/// `t` with its entries at `x` and `x + 1` joined by `op` into one.
pub open spec fn combine(t: Seq<Expr>, x: int, op: BinOp) -> Seq<Expr> {
    t.take(x) + seq![Expr::Apply(op, Box::new(t[x]), Box::new(t[x + 1]))] + t.skip(x + 2)
}

/// The pass for `^`, from operator position `x` on: each `^` joins the
/// entries on either side of it and is used up; a `^` that has no entry to
/// its right fails the whole reduction.
pub open spec fn pow_pass(t: Seq<Expr>, o: Seq<char>, x: nat) -> Option<(Seq<Expr>, Seq<char>)>
    decreases o.len() - x,
{
    if x >= o.len() {
        Some((t, o))
    } else if o[x as int] == '^' {
        if x + 1 < t.len() {
            pow_pass(combine(t, x as int, BinOp::Pow), o.remove(x as int), x)
        } else {
            None
        }
    } else {
        pow_pass(t, o, x + 1)
    }
}

/// The pass for the operators of `level` (2: `*` and `/`, 1: `+` and `-`),
/// from entry `x` on, while there is an entry after `x`: the operator at
/// `x` joins the entries at `x` and `x + 1` if it is of this level. No
/// entries, or no operator at a position that is looked at, fail it.
pub open spec fn level_pass(t: Seq<Expr>, o: Seq<char>, x: nat, level: nat) -> Option<(Seq<Expr>, Seq<char>)>
    decreases t.len() - x,
{
    if t.len() == 0 {
        None
    } else if x + 1 >= t.len() {
        Some((t, o))
    } else if x >= o.len() {
        None
    } else {
        match level_op(o[x as int], level) {
            Some(op) => level_pass(combine(t, x as int, op), o.remove(x as int), x, level),
            None => level_pass(t, o, x + 1, level),
        }
    }
}

/// One entry per term, in order.
pub open spec fn term_list(n: nat) -> Seq<Expr> {
    Seq::new(n, |i: int| Expr::Term(i as usize))
}

/// The tree for `n` terms and the operators `ops` between them: `^` first,
/// then `*` and `/`, then `+` and `-`, each level from left to right; the
/// first entry left is the result. `None` where a pass fails.
pub open spec fn reduction(n: nat, ops: Seq<char>) -> Option<Expr> {
    match pow_pass(term_list(n), ops, 0) {
        None => None,
        Some((t1, o1)) => match level_pass(t1, o1, 0, 2) {
            None => None,
            Some((t2, o2)) => match level_pass(t2, o2, 0, 1) {
                None => None,
                Some((t3, _o3)) => Some(t3[0]),
            },
        },
    }
}

proof fn lemma_level_pass_keeps_entry(t: Seq<Expr>, o: Seq<char>, x: nat, level: nat)
    ensures
        level_pass(t, o, x, level) matches Some(p) ==> p.0.len() >= 1,
    decreases t.len() - x,
{
    if t.len() > 0 && x + 1 < t.len() && x < o.len() {
        match level_op(o[x as int], level) {
            Some(op) => lemma_level_pass_keeps_entry(combine(t, x as int, op), o.remove(x as int), x, level),
            None => lemma_level_pass_keeps_entry(t, o, x + 1, level),
        }
    }
}

fn op_at_level(c: char, level: u8) -> (r: Option<BinOp>)
    ensures
        r == level_op(c, level as nat),
{
    if level == 3 && c == '^' {
        Some(BinOp::Pow)
    } else if level == 2 && c == '*' {
        Some(BinOp::Mul)
    } else if level == 2 && c == '/' {
        Some(BinOp::Div)
    } else if level == 1 && c == '+' {
        Some(BinOp::Add)
    } else if level == 1 && c == '-' {
        Some(BinOp::Sub)
    } else {
        None
    }
}

fn combine_at(t: &mut Vec<Expr>, x: usize, op: BinOp)
    requires
        x + 1 < old(t)@.len(),
    ensures
        final(t)@ == combine(old(t)@, x as int, op),
{
    let len = t.len();
    assert(x + 1 < len);
    let right = t.remove(x + 1);
    let left = t.remove(x);
    t.insert(x, Expr::Apply(op, Box::new(left), Box::new(right)));
    assert(t@ =~= combine(old(t)@, x as int, op));
}

fn run_pow_pass(terms: Vec<Expr>, ops: Vec<char>) -> (r: Option<(Vec<Expr>, Vec<char>)>)
    ensures
        match r {
            Some(p) => pow_pass(terms@, ops@, 0) == Some((p.0@, p.1@)),
            None => pow_pass(terms@, ops@, 0) is None,
        },
{
    let ghost goal = pow_pass(terms@, ops@, 0);
    let mut t = terms;
    let mut o = ops;
    let mut x: usize = 0;
    while x < o.len()
        invariant
            goal == pow_pass(terms@, ops@, 0),
            pow_pass(t@, o@, x as nat) == goal,
        decreases o@.len() - x,
    {
        if o[x] == '^' {
            if x + 1 < t.len() {
                combine_at(&mut t, x, BinOp::Pow);
                o.remove(x);
            } else {
                return None;
            }
        } else {
            x += 1;
        }
    }
    Some((t, o))
}

fn run_level_pass(terms: Vec<Expr>, ops: Vec<char>, level: u8) -> (r: Option<(Vec<Expr>, Vec<char>)>)
    ensures
        match r {
            Some(p) => level_pass(terms@, ops@, 0, level as nat) == Some((p.0@, p.1@)),
            None => level_pass(terms@, ops@, 0, level as nat) is None,
        },
{
    if terms.len() == 0 {
        return None;
    }
    let ghost goal = level_pass(terms@, ops@, 0, level as nat);
    let mut t = terms;
    let mut o = ops;
    let mut x: usize = 0;
    while x < t.len() - 1
        invariant
            goal == level_pass(terms@, ops@, 0, level as nat),
            t@.len() > 0,
            level_pass(t@, o@, x as nat, level as nat) == goal,
        decreases t@.len() - x,
    {
        if x >= o.len() {
            return None;
        }
        match op_at_level(o[x], level) {
            Some(op) => {
                combine_at(&mut t, x, op);
                o.remove(x);
            },
            None => {
                x += 1;
            },
        }
    }
    Some((t, o))
}

/// The tree in which `n` terms are joined by the operators `ops`, or
/// `None` where `reduction` fails.
pub fn reduction_tree(n: usize, ops: &Vec<char>) -> (r: Option<Expr>)
    ensures
        r == reduction(n as nat, ops@),
{
    let mut t: Vec<Expr> = Vec::new();
    let mut i: usize = 0;
    while i < n
        invariant
            i <= n,
            t@ =~= term_list(i as nat),
        decreases n - i,
    {
        t.push(Expr::Term(i));
        i += 1;
        assert(t@ =~= term_list(i as nat));
    }
    let o = ops.clone();
    assert(o@ == ops@);
    match run_pow_pass(t, o) {
        None => None,
        Some((t1, o1)) => match run_level_pass(t1, o1, 2) {
            None => None,
            Some((t2, o2)) => match run_level_pass(t2, o2, 1) {
                None => None,
                Some((t3, _o3)) => {
                    proof {
                        lemma_level_pass_keeps_entry(t2@, o2@, 0, 1);
                    }
                    let mut t3 = t3;
                    Some(t3.swap_remove(0))
                },
            },
        },
    }
}

} // verus!
