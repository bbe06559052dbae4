//! Mertens values M(n) = mu(1) + ... + mu(n) over a list of Mobius values,
//! so that the sum of mu over a run [a, b] is M(b) - M(a - 1).
use vstd::prelude::*;
use crate::leaf_sums::range_sum;

verus! {

/// M(n): the sum of mu[k] over 1 <= k <= n.
pub open spec fn mertens_of(mu: Seq<i8>, n: int) -> int
    decreases n,
{
    if n < 1 {
        0
    } else {
        mertens_of(mu, n - 1) + mu[n] as int
    }
}

/// Every listed Mobius value is -1, 0 or 1.
pub open spec fn mobius_values(mu: Seq<i8>) -> bool {
    forall|k: int| 0 <= k < mu.len() ==> -1 <= #[trigger] mu[k] <= 1
}

/// Prefix sums of a Mobius list.
pub struct MertensStructure {
    /// `values[n]` is M(n).
    pub values: Vec<i64>,
    /// The Mobius list summed.
    pub mu: Ghost<Seq<i8>>,
}

impl MertensStructure {
    /// Each stored value is the Mertens value of its index over the Mobius list.
    pub open spec fn valid(&self) -> bool {
        &&& self.values@.len() == self.mu@.len()
        &&& self.mu@.len() <= i64::MAX
        &&& mobius_values(self.mu@)
        &&& forall|n: int| 0 <= n < self.values@.len() ==> #[trigger] self.values@[n] == mertens_of(self.mu@, n)
    }

    /// M(n) for every n < mu.len().
    pub fn from_mu(mu: &[i8]) -> (t: Self)
        requires
            mobius_values(mu@),
            mu@.len() <= i64::MAX,
        ensures
            t.valid(),
            t.mu@ == mu@,
    {
        let mut values: Vec<i64> = Vec::new();
        let mut run: i64 = 0;
        let mut n: usize = 0;
        while n < mu.len()
            invariant
                mobius_values(mu@),
                mu@.len() <= i64::MAX,
                n <= mu@.len(),
                values@.len() == n,
                -n <= run <= n,
                n >= 1 ==> run == mertens_of(mu@, n - 1),
                n == 0 ==> run == 0,
                forall|k: int| 0 <= k < n ==> #[trigger] values@[k] == mertens_of(mu@, k),
            decreases mu@.len() - n,
        {
            if n >= 1 {
                run = run + mu[n] as i64;
            }
            values.push(run);
            n += 1;
        }
        MertensStructure { values, mu: Ghost(mu@) }
    }

    /// M(n).
    pub fn mertens(&self, n: usize) -> (r: i64)
        requires
            self.valid(),
            n < self.mu@.len(),
        ensures
            r == mertens_of(self.mu@, n as int),
    {
        self.values[n]
    }
}

/// Over a run [a, b) on which every term is mu[e] times the same c, the
/// terms sum to c (M(b - 1) - M(a - 1)).
pub proof fn lemma_run_sum(a: int, b: int, f: spec_fn(int) -> int, mu: Seq<i8>, c: int)
    requires
        1 <= a <= b,
        forall|e: int| a <= e < b ==> #[trigger] f(e) == mu[e] * c,
    ensures
        range_sum(a, b, f) == c * (mertens_of(mu, b - 1) - mertens_of(mu, a - 1)),
    decreases b - a,
{
    if a < b {
        lemma_run_sum(a, b - 1, f, mu, c);
        assert(c * (mertens_of(mu, b - 1) - mertens_of(mu, a - 1)) == c * (mertens_of(mu, b - 2) - mertens_of(
            mu,
            a - 1,
        )) + mu[b - 1] * c) by (nonlinear_arith)
            requires
                mertens_of(mu, b - 1) == mertens_of(mu, b - 2) + mu[b - 1],
        ;
    } else {
        assert(c * (mertens_of(mu, b - 1) - mertens_of(mu, a - 1)) == 0) by (nonlinear_arith)
            requires
                a == b,
        ;
    }
}

/// The Mobius values over (a, b] sum to at most b - a in size.
pub proof fn lemma_mertens_diff_bound(mu: Seq<i8>, a: int, b: int)
    requires
        mobius_values(mu),
        0 <= a <= b < mu.len(),
    ensures
        -(b - a) <= mertens_of(mu, b) - mertens_of(mu, a) <= b - a,
    decreases b - a,
{
    if a < b {
        lemma_mertens_diff_bound(mu, a, b - 1);
        assert(-1 <= mu[b] <= 1);
    }
}

} // verus!
