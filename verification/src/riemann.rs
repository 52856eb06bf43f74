use vstd::prelude::*;

verus! {

/// Which sample of each rectangle gives its height.
#[derive(Clone, Copy, Debug, PartialEq, Eq, Structural)]
pub enum RiemannSum {
    Left,
    Right,
    Midpoint,
}

impl RiemannSum {
    /// The name under which this kind of sum is shown to the user.
    pub fn label(&self) -> (s: &'static str)
        ensures
            s@ == match *self {
                RiemannSum::Left => "Left"@,
                RiemannSum::Right => "Right"@,
                RiemannSum::Midpoint => "Midpoint"@,
            },
    {
        match self {
            RiemannSum::Left => "Left",
            RiemannSum::Right => "Right",
            RiemannSum::Midpoint => "Midpoint",
        }
    }
}

/// How much a sampled height counts towards the sum.
#[derive(Clone, Copy, Debug, PartialEq, Eq, Structural)]
pub enum Weight {
    Skip,
    Half,
    Full,
}

/// The weight of the sample at position `i` of `n`, taken at the ends of
/// the `n - 1` rectangles: a left sum leaves out the last sample, a right
/// sum the first, and the midpoint (trapezoid) sum halves both ends.
pub open spec fn weight_of(kind: RiemannSum, n: nat, i: int) -> Weight {
    match kind {
        RiemannSum::Left => if i == n - 1 { Weight::Skip } else { Weight::Full },
        RiemannSum::Right => if i == 0 { Weight::Skip } else { Weight::Full },
        RiemannSum::Midpoint => if i == 0 || i == n - 1 { Weight::Half } else { Weight::Full },
    }
}

/// The weights of `n` samples for a sum of this kind, or `None` where
/// there are fewer than two samples and so no rectangle.
pub fn riemann_weights(kind: RiemannSum, n: usize) -> (r: Option<Vec<Weight>>)
    ensures
        r is Some <==> n >= 2,
        r matches Some(w) ==> w@ == Seq::new(n as nat, |i: int| weight_of(kind, n as nat, i)),
{
    if n < 2 {
        return None;
    }
    let mut w: Vec<Weight> = Vec::new();
    let mut i: usize = 0;
    while i < n
        invariant
            i <= n,
            n >= 2,
            w@ =~= Seq::new(i as nat, |j: int| weight_of(kind, n as nat, j)),
        decreases n - i,
    {
        let x = match kind {
            RiemannSum::Left => if i == n - 1 { Weight::Skip } else { Weight::Full },
            RiemannSum::Right => if i == 0 { Weight::Skip } else { Weight::Full },
            RiemannSum::Midpoint => if i == 0 || i == n - 1 { Weight::Half } else { Weight::Full },
        };
        w.push(x);
        i += 1;
        assert(w@ =~= Seq::new(i as nat, |j: int| weight_of(kind, n as nat, j)));
    }
    Some(w)
}

/// A weight counted in halves: 0, 1 or 2.
pub open spec fn halves(w: Weight) -> int {
    match w {
        Weight::Skip => 0,
        Weight::Half => 1,
        Weight::Full => 2,
    }
}

/// The weights of `w` added up, in halves.
pub open spec fn total_halves(w: Seq<Weight>) -> int
    decreases w.len(),
{
    if w.len() == 0 {
        0
    } else {
        total_halves(w.drop_last()) + halves(w.last())
    }
}

proof fn lemma_total_prefix(kind: RiemannSum, n: nat, k: nat)
    requires
        n >= 2,
        k <= n,
    ensures
        total_halves(Seq::new(k, |i: int| weight_of(kind, n, i))) == match kind {
            RiemannSum::Left => if k == n { 2 * k - 2 } else { 2 * k as int },
            RiemannSum::Right => if k == 0 { 0int } else { 2 * k - 2 },
            RiemannSum::Midpoint => if k == 0 { 0int } else if k == n { 2 * k - 2 } else { 2 * k - 1 },
        },
    decreases k,
{
    if k > 0 {
        lemma_total_prefix(kind, n, (k - 1) as nat);
        assert(Seq::new(k, |i: int| weight_of(kind, n, i)).drop_last() =~= Seq::new(
            (k - 1) as nat,
            |i: int| weight_of(kind, n, i),
        ));
    }
}

/// Every kind of sum counts its samples as much as there are rectangles:
/// for `n` samples the weights add up to `n - 1`.
pub proof fn law_weights_cover_every_rectangle(kind: RiemannSum, n: nat)
    requires
        n >= 2,
    ensures
        total_halves(Seq::new(n, |i: int| weight_of(kind, n, i))) == 2 * (n - 1),
{
    lemma_total_prefix(kind, n, n);
}

/// A right sum weighs the samples as a left sum does, read backwards; the
/// midpoint sum, which is the trapezoid rule, weighs each sample by the
/// average of its left and right weights; and a left sum counts every
/// sample fully except the last, which it leaves out.
pub proof fn law_sums_related(n: nat, i: int)
    requires
        n >= 2,
        0 <= i < n,
    ensures
        weight_of(RiemannSum::Right, n, i) == weight_of(RiemannSum::Left, n, n - 1 - i),
        2 * halves(weight_of(RiemannSum::Midpoint, n, i)) == halves(weight_of(RiemannSum::Left, n, i))
            + halves(weight_of(RiemannSum::Right, n, i)),
        i < n - 1 ==> halves(weight_of(RiemannSum::Left, n, i)) == 2,
        i == n - 1 ==> halves(weight_of(RiemannSum::Left, n, i)) == 0,
{
}

} // verus!
