//! Transient per-worker arena for special-leaf evaluation: pending cells are
//! served and discarded chunk by chunk.
use vstd::prelude::*;
use crate::leaf_sums::{range_sum, lemma_range_sum_split, lemma_range_sum_dominated, lemma_range_sum_nonneg_bound};
use crate::mertens_struct::{MertensStructure, mertens_of, mobius_values, lemma_run_sum, lemma_mertens_diff_bound};
use crate::pi_table::PiTable;
use crate::primality::{prime_count, lemma_prime_count_bound};
use crate::intmath::min_u64;
use vstd::arithmetic::div_mod::{lemma_div_denominator, lemma_div_is_ordered_by_denominator, lemma_fundamental_div_mod};

verus! {

/// The special leaf (j, e) of p = P[j]: mu(e) (pi(x / (p e)) - j + 1).
pub open spec fn special_leaf(x: int, j: int, p: int, mu: Seq<i8>) -> spec_fn(int) -> int {
    |e: int| mu[e] * (prime_count(x / (p * e)) - j + 1)
}

/// What bounds the size of the special leaf (j, e): pi(x / (p e)) + j + 1.
pub open spec fn special_leaf_bound(x: int, j: int, p: int) -> spec_fn(int) -> int {
    |e: int| prime_count(x / (p * e)) + j + 1
}

/// The special leaves of p = P[j]: over p <= e <= x / p^2.
pub open spec fn special_j_sum(x: int, j: int, primes: Seq<u64>, mu: Seq<i8>) -> int {
    let p = primes[j] as int;
    range_sum(p, x / (p * p) + 1, special_leaf(x, j, p, mu))
}

/// The bound of the special leaves of P[j], summed.
pub open spec fn special_j_bound(x: int, j: int, primes: Seq<u64>) -> int {
    let p = primes[j] as int;
    range_sum(p, x / (p * p) + 1, special_leaf_bound(x, j, p))
}

/// The special leaves of P[j] over lo <= j <= hi.
pub open spec fn special_range_sum(x: int, lo: int, hi: int, primes: Seq<u64>, mu: Seq<i8>) -> int {
    range_sum(lo, hi + 1, |j: int| special_j_sum(x, j, primes, mu))
}

/// The bounds of the special leaves over lo <= j <= hi, summed.
pub open spec fn special_range_bound(x: int, lo: int, hi: int, primes: Seq<u64>) -> int {
    range_sum(lo, hi + 1, |j: int| special_j_bound(x, j, primes))
}

/// Every prime P[j] of the range is at least 2 with its square in u64, and
/// where it has leaves, x / P[j]^2 lies within the table and the Mertens
/// list.
pub open spec fn special_domain(x: int, lo: int, hi: int, primes: Seq<u64>, max_y: int, m_len: int) -> bool {
    &&& hi < primes.len()
    &&& hi < i64::MAX
    &&& forall|j: int|
        lo <= j <= hi ==> {
            let p = #[trigger] primes[j] as int;
            &&& p >= 2
            &&& p * p <= u64::MAX
            &&& x / (p * p) >= p ==> x / (p * p) < m_len && x / (p * p) <= max_y
        }
}

/// Each leaf bound is at least 1, and a leaf lies within its bound.
proof fn lemma_special_leaf_bounded(x: int, j: int, p: int, mu: Seq<i8>, e: int)
    requires
        j >= 1,
        0 <= e < mu.len(),
        mobius_values(mu),
    ensures
        special_leaf_bound(x, j, p)(e) >= 1,
        -special_leaf_bound(x, j, p)(e) <= special_leaf(x, j, p, mu)(e) <= special_leaf_bound(x, j, p)(e),
{
    let c = prime_count(x / (p * e)) as int;
    let m = mu[e] as int;
    assert(-1 <= m <= 1);
    assert(-(c + j + 1) <= m * (c - j + 1) <= c + j + 1) by (nonlinear_arith)
        requires
            -1 <= m <= 1,
            c >= 0,
            j >= 1,
    ;
}


/// One pending (j, e, v) cell with its weight.
#[derive(Clone, Copy, Debug)]
pub struct PendingCell {
    pub j: u16,
    pub e: u32,
    pub v: u64,
    pub weight: i64,
}

/// Per-worker arena: cells waiting to be served and counters of the work done.
pub struct Arena25 {
    pub pending: Vec<PendingCell>,
    pub blocks_built: usize,
    pub cells_served: usize,
}

impl Arena25 {
    /// An empty arena with room for 32768 pending cells.
    pub fn new() -> (a: Self)
        ensures
            a.pending@.len() == 0,
            a.blocks_built == 0,
            a.cells_served == 0,
    {
        Self { pending: Vec::with_capacity(32768), blocks_built: 0, cells_served: 0 }
    }

    /// Drops the pending cells of the finished chunk; the counters stay.
    pub fn reset(&mut self)
        ensures
            final(self).pending@.len() == 0,
            final(self).blocks_built == old(self).blocks_built,
            final(self).cells_served == old(self).cells_served,
    {
        self.pending.clear();
    }
}

/// Evaluator of the special leaves through per-worker arenas.
pub struct Arena25Engine;


impl Arena25Engine {
    /// The special leaves of P[j] for start_j <= j <= end_j: for each run of
    /// e in [P[j], x / P[j]^2] with one quotient v = x / (P[j] e), the
    /// Mertens difference of the run times pi(v) - j + 1.
    pub fn evaluate_special_leaves_range(
        x: u64,
        start_j: usize,
        end_j: usize,
        primes: &[u64],
        pi_table: &PiTable,
        mertens: &MertensStructure,
    ) -> (r: i64)
        requires
            pi_table.valid(),
            mertens.valid(),
            1 <= start_j,
            special_domain(
                x as int,
                start_j as int,
                end_j as int,
                primes@,
                pi_table.max_y as int,
                mertens.mu@.len() as int,
            ),
            special_range_bound(x as int, start_j as int, end_j as int, primes@) <= i64::MAX,
        ensures
            r == special_range_sum(x as int, start_j as int, end_j as int, primes@, mertens.mu@),
    {
        let ghost mu = mertens.mu@;
        let ghost jf = |j: int| special_j_sum(x as int, j, primes@, mu);
        let ghost jb = |j: int| special_j_bound(x as int, j, primes@);
        if end_j < start_j {
            return 0;
        }
        proof {
            assert forall|j: int| start_j <= j < end_j + 1 implies #[trigger] jb(j) >= 0 by {
                let p = primes@[j] as int;
                let lb = special_leaf_bound(x as int, j, p);
                if p <= x as int / (p * p) {
                    assert forall|e: int| p <= e < x as int / (p * p) + 1 implies #[trigger] lb(e) >= 0 by {
                        lemma_special_leaf_bounded(x as int, j, p, mu, e);
                    }
                    lemma_range_sum_nonneg_bound(p, x as int / (p * p) + 1, x as int / (p * p) + 1, lb);
                }
            }
            lemma_range_sum_nonneg_bound(start_j as int, start_j as int, end_j + 1, jb);
        }
        let mut acc: i64 = 0;
        let mut j = start_j;
        while j <= end_j
            invariant
                mu == mertens.mu@,
                jf == (|j: int| special_j_sum(x as int, j, primes@, mu)),
                jb == (|j: int| special_j_bound(x as int, j, primes@)),
                pi_table.valid(),
                mertens.valid(),
                1 <= start_j <= j <= end_j + 1,
                special_domain(
                    x as int,
                    start_j as int,
                    end_j as int,
                    primes@,
                    pi_table.max_y as int,
                    mertens.mu@.len() as int,
                ),
                forall|k: int| start_j <= k < end_j + 1 ==> #[trigger] jb(k) >= 0,
                range_sum(start_j as int, end_j + 1, jb) <= i64::MAX,
                acc == range_sum(start_j as int, j as int, jf),
                -range_sum(start_j as int, j as int, jb) <= acc <= range_sum(start_j as int, j as int, jb),
            decreases end_j + 1 - j,
        {
            let p_j = primes[j];
            assert(p_j * p_j >= 4) by (nonlinear_arith)
                requires
                    p_j >= 2,
            ;
            let e_hi = x / (p_j * p_j);
            proof {
                lemma_range_sum_nonneg_bound(start_j as int, j + 1, end_j + 1, jb);
            }
            if e_hi >= p_j {
                let part = special_leaves_of_j(x, j, p_j, primes, pi_table, mertens);
                acc = acc + part;
            } else {
                proof {
                    assert(jf(j as int) == 0);
                    assert(jb(j as int) == 0);
                }
            }
            j += 1;
        }
        acc
    }
}

/// The special leaves of p = P[j], one Mertens difference per run of equal
/// quotients x / (p e).
fn special_leaves_of_j(
    x: u64,
    j: usize,
    p: u64,
    primes: &[u64],
    pi_table: &PiTable,
    mertens: &MertensStructure,
) -> (r: i64)
    requires
        pi_table.valid(),
        mertens.valid(),
        1 <= j < primes@.len(),
        j < i64::MAX,
        p == primes@[j as int],
        p >= 2,
        p * p <= u64::MAX,
        p <= x as int / (p * p),
        x as int / (p * p) < mertens.mu@.len(),
        x as int / (p * p) <= pi_table.max_y,
        special_j_bound(x as int, j as int, primes@) <= i64::MAX,
    ensures
        r == special_j_sum(x as int, j as int, primes@, mertens.mu@),
        -special_j_bound(x as int, j as int, primes@) <= r <= special_j_bound(x as int, j as int, primes@),
{
    let ghost mu = mertens.mu@;
    let ghost pi = p as int;
    let ghost lf = special_leaf(x as int, j as int, pi, mu);
    let ghost lb = special_leaf_bound(x as int, j as int, pi);
    assert(p * p >= 4) by (nonlinear_arith)
        requires
            p >= 2,
    ;
    let e_hi = x / (p * p);
    let n = x / p;
    proof {
        lemma_div_denominator(x as int, pi, pi);
        assert(e_hi == n as int / pi);
        lemma_div_is_ordered_by_denominator(n as int, 1, pi);
        assert forall|e: int| pi <= e < e_hi + 1 implies #[trigger] lb(e) >= 0 by {
            lemma_special_leaf_bounded(x as int, j as int, pi, mu, e);
        }
    }
    let mut e = p;
    let mut m_prev = mertens.mertens((p - 1) as usize);
    let mut acc: i64 = 0;
    while e <= e_hi
        invariant
            mu == mertens.mu@,
            lf == special_leaf(x as int, j as int, pi, mu),
            lb == special_leaf_bound(x as int, j as int, pi),
            pi == p,
            pi_table.valid(),
            mertens.valid(),
            1 <= j,
            j < i64::MAX,
            p >= 2,
            e_hi == x as int / (p * p),
            n == x / p,
            e_hi == n / p,
            e_hi <= n,
            e_hi < mertens.mu@.len(),
            e_hi <= pi_table.max_y,
            p <= e <= e_hi + 1,
            m_prev == mertens_of(mu, e - 1),
            forall|k: int| pi <= k < e_hi + 1 ==> #[trigger] lb(k) >= 0,
            range_sum(pi, e_hi + 1, lb) <= i64::MAX,
            acc == range_sum(pi, e as int, lf),
            -range_sum(pi, e as int, lb) <= acc <= range_sum(pi, e as int, lb),
        decreases e_hi + 1 - e,
    {
        proof {
            assert(p * e <= n) by (nonlinear_arith)
                requires
                    e <= e_hi,
                    e_hi == n / p,
                    p >= 2,
                    n >= 0,
            ;
            lemma_div_denominator(x as int, pi, e as int);
            lemma_fundamental_div_mod(n as int, pi);
        }
        let v = x / (p * e);
        proof {
            assert(v == n / e);
            lemma_div_is_ordered_by_denominator(n as int, e as int, e_hi as int);
            assert(n / e_hi >= p) by (nonlinear_arith)
                requires
                    e_hi == n / p,
                    e_hi >= 1,
                    n >= 0,
                    p >= 2,
            {
                lemma_fundamental_div_mod(n as int, p as int);
                lemma_fundamental_div_mod(n as int, e_hi as int);
            }
            lemma_div_denominator(x as int, pi, v as int);
            assert(p * v <= x) by (nonlinear_arith)
                requires
                    v == n / e,
                    n == x / p,
                    e >= 1,
                    p >= 2,
            {
                lemma_fundamental_div_mod(x as int, p as int);
                lemma_fundamental_div_mod(n as int, e as int);
                assert(v <= n) by {
                    lemma_div_is_ordered_by_denominator(n as int, 1, e as int);
                }
            }
        }
        let next_e = x / (p * v) + 1;
        proof {
            assert(next_e - 1 == n / v);
            crate::census::lemma_quotient_start(n as int, e as int);
            crate::census::lemma_quotient_run(n as int, e as int, e as int);
        }
        let run_end = min_u64(next_e - 1, e_hi);
        let m_curr = mertens.mertens(run_end as usize);
        let ghost c = prime_count(v as int) - j + 1;
        proof {
            assert forall|e2: int| e <= e2 < run_end + 1 implies #[trigger] lf(e2) == mu[e2] * c by {
                crate::census::lemma_quotient_run(n as int, e as int, e2);
                lemma_div_denominator(x as int, pi, e2);
            }
            lemma_run_sum(e as int, run_end + 1, lf, mu, c);
            assert forall|e2: int| e <= e2 < run_end + 1 implies -#[trigger] lb(e2) <= lf(e2) <= lb(e2) by {
                lemma_special_leaf_bounded(x as int, j as int, pi, mu, e2);
            }
            lemma_range_sum_dominated(e as int, run_end + 1, run_end + 1, lf, lb);
            lemma_range_sum_split(pi, e as int, run_end + 1, lf);
            lemma_range_sum_split(pi, e as int, run_end + 1, lb);
            lemma_range_sum_nonneg_bound(pi, run_end + 1, e_hi + 1, lb);
            lemma_range_sum_nonneg_bound(e as int, e as int, run_end + 1, lb);
        }
        proof {
            lemma_mertens_diff_bound(mu, e - 1, run_end as int);
        }
        let mu_diff = m_curr - m_prev;
        m_prev = m_curr;
        if mu_diff != 0 {
            proof {
                lemma_prime_count_bound(v as int);
                assert(v <= e_hi) by {
                    lemma_div_is_ordered_by_denominator(n as int, pi, e as int);
                }
                assert(mu_diff * c == c * mu_diff) by (nonlinear_arith);
            }
            let pi_v = pi_table.pi(v) as i64;
            let weight = pi_v - (j as i64) + 1;
            acc = acc + mu_diff * weight;
        } else {
            proof {
                assert(c * mu_diff == 0) by (nonlinear_arith)
                    requires
                        mu_diff == 0,
                ;
            }
        }
        e = run_end + 1;
    }
    acc
}

} // verus!
