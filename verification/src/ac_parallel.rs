//! Guided chunk dispenser over the squarefree range m in [1, y] of the
//! analytical leaves: step = clamp(remaining / 64, 16, 4096), and the
//! evaluation of one chunk of m-values.
use vstd::prelude::*;
use crate::intmath::{clamp_spec, clamp_u64};
use crate::ac_monotone::{PiTableOps, leaf_domain, model_of};
use crate::ac_hyperbola_ilp4::{divisors_of, process_ac_leaves_ilp4};
use crate::leaf_sums::{index_leaf_sum, leaf_prefixes_fit, lemma_index_leaf_sum_congruent};
use crate::magic_reciprocal::FastDiv64;
use crate::primality::{count_le, sorted};
use crate::roots::{isqrt, floor_sqrt};
use crate::sampled_index::partition_point_le;
use crate::segmented_pi::SegmentedPiTable;

verus! {

/// End (exclusive) of the guided chunk that starts at `curr` in `[1, y]`.
pub open spec fn guided_chunk_end(curr: int, y: int) -> int {
    let remaining = y - curr + 1;
    let step = clamp_spec(remaining / 64, 16, 4096);
    if curr + step < y + 1 {
        curr + step
    } else {
        y + 1
    }
}

/// Hands out consecutive chunks `[start, end)` of m-values covering `[1, y]`.
pub struct AcWorkQueue {
    current_m: u64,
    y: u64,
}

impl AcWorkQueue {
    /// The next m-value to hand out.
    pub closed spec fn cursor(&self) -> int {
        self.current_m as int
    }

    /// The last m-value to hand out.
    pub closed spec fn limit(&self) -> int {
        self.y as int
    }

    /// A queue whose first chunk starts at m = 1.
    pub fn new(y: u64) -> (q: Self)
        ensures
            q.cursor() == 1,
            q.limit() == y,
    {
        Self { current_m: 1, y }
    }

    /// Claims the next chunk; `None` once every m in `[1, y]` was handed out.
    pub fn claim_chunk(&mut self) -> (r: Option<(u64, u64)>)
        requires
            old(self).limit() < u64::MAX,
            old(self).cursor() <= old(self).limit() ==> old(self).cursor() + clamp_spec(
                (old(self).limit() - old(self).cursor() + 1) / 64,
                16,
                4096,
            ) <= u64::MAX,
        ensures
            final(self).limit() == old(self).limit(),
            match r {
                None => old(self).cursor() > old(self).limit() && final(self).cursor() == old(self).cursor(),
                Some((start, end)) => {
                    &&& old(self).cursor() <= old(self).limit()
                    &&& start == old(self).cursor()
                    &&& end == guided_chunk_end(start as int, old(self).limit())
                    &&& start < end <= old(self).limit() + 1
                    &&& final(self).cursor() == end
                },
            },
    {
        let curr = self.current_m;
        if curr > self.y {
            return None;
        }
        let remaining = self.y - curr + 1;
        let step = clamp_u64(remaining / 64, 16, 4096);
        let next = if curr + step < self.y + 1 {
            curr + step
        } else {
            self.y + 1
        };
        self.current_m = next;
        Some((curr, next))
    }
}

/// mu(m) from the table, 0 past its end.
pub open spec fn mu_at(mu: Seq<i8>, m: int) -> int {
    if 0 <= m < mu.len() {
        mu[m] as int
    } else {
        0
    }
}

/// The AC leaves of one m: over the primes x / (m z) < p <= sqrt(x / m),
/// the sum of pi(x / (m p)) - (index + 1) + 1.
pub open spec fn ac_m_leaves(x: int, z: int, m: int, s: Seq<u64>, piv: spec_fn(int) -> int) -> int {
    let xm = x / m;
    let pmin = x / (m * z);
    let pmax = floor_sqrt(xm);
    if pmin >= pmax {
        0
    } else {
        index_leaf_sum(xm, s, count_le(s, pmin) as int, count_le(s, pmax) as int, piv, 1)
    }
}

/// sum over m in [m0, m1) of mu(m) times the AC leaves of m.
pub open spec fn ac_chunk_sum(
    x: int,
    z: int,
    mu: Seq<i8>,
    s: Seq<u64>,
    piv: spec_fn(int) -> int,
    m0: int,
    m1: int,
) -> int
    decreases m1 - m0,
{
    if m1 <= m0 {
        0
    } else {
        ac_chunk_sum(x, z, mu, s, piv, m0, m1 - 1) + mu_at(mu, m1 - 1) * ac_m_leaves(x, z, m1 - 1, s, piv)
    }
}

/// Chunks add up: the AC leaves of [m0, m2) are those of [m0, m1) and of
/// [m1, m2), however the m-range is cut.
pub proof fn lemma_ac_chunks_add(
    x: int,
    z: int,
    mu: Seq<i8>,
    s: Seq<u64>,
    piv: spec_fn(int) -> int,
    m0: int,
    m1: int,
    m2: int,
)
    requires
        m0 <= m1 <= m2,
    ensures
        ac_chunk_sum(x, z, mu, s, piv, m0, m2) == ac_chunk_sum(x, z, mu, s, piv, m0, m1) + ac_chunk_sum(
            x,
            z,
            mu,
            s,
            piv,
            m1,
            m2,
        ),
    decreases m2 - m1,
{
    if m1 < m2 {
        lemma_ac_chunks_add(x, z, mu, s, piv, m0, m1, m2 - 1);
    }
}

/// Every running total of the chunk, from `m0` up to each `k <= m1`, fits
/// in i64.
pub open spec fn ac_chunk_prefixes_fit(
    x: int,
    z: int,
    mu: Seq<i8>,
    s: Seq<u64>,
    piv: spec_fn(int) -> int,
    m0: int,
    m1: int,
) -> bool {
    forall|k: int| m0 <= k <= m1 ==> i64::MIN <= #[trigger] ac_chunk_sum(x, z, mu, s, piv, m0, k) <= i64::MAX
}

/// What one m with mu(m) != 0 needs: m >= 1, z >= 1, m z in range, a
/// Mobius value, prepared divisors and table answers for its leaves, and
/// running totals of its leaves that fit in i64.
pub open spec fn ac_chunk_domain(
    t: &SegmentedPiTable,
    x: int,
    z: int,
    mu: Seq<i8>,
    s: Seq<u64>,
    rec: Seq<FastDiv64>,
    m: int,
) -> bool {
    &&& -1 <= mu_at(mu, m) <= 1
    &&& mu_at(mu, m) != 0 ==> {
        &&& m >= 1
        &&& z >= 1
        &&& m * z <= u64::MAX
        &&& x / (m * z) < floor_sqrt(x / m) ==> {
            &&& leaf_domain(
                t,
                x / m,
                s,
                rec,
                count_le(s, x / (m * z)) as int,
                count_le(s, floor_sqrt(x / m)) as int,
            )
            &&& leaf_prefixes_fit(
                x / m,
                s,
                count_le(s, x / (m * z)) as int,
                count_le(s, floor_sqrt(x / m)) as int,
                model_of(t),
            )
        }
    }
}

/// The leaves of one m, four at a time and then one by one.
fn m_leaves(
    x_div_m: u64,
    st: usize,
    en: usize,
    primes: &[u64],
    reciprocals: &[FastDiv64],
    pi_table: &SegmentedPiTable,
) -> (r: i64)
    requires
        st <= en <= primes@.len(),
        leaf_domain(pi_table, x_div_m as int, primes@, reciprocals@, st as int, en as int),
        leaf_prefixes_fit(x_div_m as int, primes@, st as int, en as int, model_of(pi_table)),
    ensures
        r == index_leaf_sum(x_div_m as int, primes@, st as int, en as int, model_of(pi_table), 1),
{
    let ghost s = primes@;
    let ghost d = divisors_of(reciprocals@);
    let ghost piv = model_of(pi_table);
    let ghost xm = x_div_m as int;
    proof {
        assert forall|i: int| st <= i < en implies #[trigger] d[i] == s[i] by {
            assert(reciprocals@[i].divisor == s[i]);
        }
        assert(leaf_domain(pi_table, xm, d, reciprocals@, st as int, en as int)) by {
            assert forall|i: int| st <= i < en implies {
                &&& (#[trigger] reciprocals@[i]).divisor == d[i]
                &&& d[i] > 0
                &&& reciprocals@[i].max_n >= xm
                &&& pi_table.answers(xm / (d[i] as int))
                &&& 0 <= pi_table.pi_model(xm / (d[i] as int)) <= xm
            } by {
                assert(reciprocals@[i].divisor == s[i]);
            }
        }
        assert forall|k: int| st <= k <= en implies i64::MIN <= 0 + #[trigger] index_leaf_sum(
            xm,
            d,
            st as int,
            k,
            piv,
            1,
        ) <= i64::MAX by {
            lemma_index_leaf_sum_congruent(xm, d, s, st as int, k, piv, 1);
            assert(i64::MIN <= index_leaf_sum(xm, s, st as int, k, piv, 1) <= i64::MAX);
        }
    }
    let mut sub_sum: i64 = 0;
    let mut idx = process_ac_leaves_ilp4(x_div_m, st, en, reciprocals, pi_table, &mut sub_sum);
    proof {
        assert(idx <= en);
        lemma_index_leaf_sum_congruent(xm, d, s, st as int, idx as int, piv, 1);
    }
    while idx < en
        invariant
            s == primes@,
            piv == model_of(pi_table),
            xm == x_div_m,
            st <= idx <= en <= s.len(),
            leaf_domain(pi_table, xm, s, reciprocals@, st as int, en as int),
            leaf_prefixes_fit(xm, s, st as int, en as int, piv),
            sub_sum == index_leaf_sum(xm, s, st as int, idx as int, piv, 1),
        decreases en - idx,
    {
        let v = reciprocals[idx].div(x_div_m);
        let pi_v = PiTableOps::pi(pi_table, v);
        proof {
            assert(i64::MIN <= index_leaf_sum(xm, s, st as int, idx + 1, piv, 1) <= i64::MAX);
        }
        let pi_p = (idx + 1) as i128;
        sub_sum = (sub_sum as i128 + pi_v as i128 - pi_p + 1) as i64;
        idx += 1;
    }
    sub_sum
}

/// sum over m in [m_start, m_end) of mu(m) times the AC leaves of m (the
/// primes x / (m z) < p <= sqrt(x / m)), with pi read from `pi_table` and
/// each x / (m p) taken with the prepared divisor of p.
#[verifier::spinoff_prover]
#[verifier::rlimit(40)]
pub fn compute_ac_chunk(
    m_start: u64,
    m_end: u64,
    x: u64,
    z: u64,
    mu: &[i8],
    primes: &[u64],
    reciprocals: &[FastDiv64],
    pi_table: &SegmentedPiTable,
) -> (r: i64)
    requires
        sorted(primes@),
        m_start <= m_end,
        forall|m: int| m_start <= m < m_end ==> #[trigger] ac_chunk_domain(
            pi_table,
            x as int,
            z as int,
            mu@,
            primes@,
            reciprocals@,
            m,
        ),
        ac_chunk_prefixes_fit(x as int, z as int, mu@, primes@, model_of(pi_table), m_start as int, m_end as int),
    ensures
        r == ac_chunk_sum(x as int, z as int, mu@, primes@, model_of(pi_table), m_start as int, m_end as int),
{
    let ghost s = primes@;
    let ghost piv = model_of(pi_table);
    let mut chunk_sum: i64 = 0;
    let mut m = m_start;
    while m < m_end
        invariant
            s == primes@,
            piv == model_of(pi_table),
            sorted(s),
            m_start <= m <= m_end,
            forall|k: int| m_start <= k < m_end ==> #[trigger] ac_chunk_domain(
                pi_table,
                x as int,
                z as int,
                mu@,
                s,
                reciprocals@,
                k,
            ),
            ac_chunk_prefixes_fit(x as int, z as int, mu@, s, piv, m_start as int, m_end as int),
            chunk_sum == ac_chunk_sum(x as int, z as int, mu@, s, piv, m_start as int, m as int),
        decreases m_end - m,
    {
        let ghost leaves = ac_m_leaves(x as int, z as int, m as int, s, piv);
        proof {
            assert(ac_chunk_domain(pi_table, x as int, z as int, mu@, s, reciprocals@, m as int));
            assert(i64::MIN <= ac_chunk_sum(x as int, z as int, mu@, s, piv, m_start as int, m + 1) <= i64::MAX);
            assert(ac_chunk_sum(x as int, z as int, mu@, s, piv, m_start as int, m + 1) == ac_chunk_sum(
                x as int,
                z as int,
                mu@,
                s,
                piv,
                m_start as int,
                m as int,
            ) + mu_at(mu@, m as int) * leaves);
        }
        let mu_m: i8 = if m < mu.len() as u64 {
            mu[m as usize]
        } else {
            0
        };
        assert(mu_m as int == mu_at(mu@, m as int));
        if mu_m != 0 {
            assert(m * z >= 1) by (nonlinear_arith)
                requires
                    m >= 1,
                    z >= 1,
            ;
            let x_div_m = x / m;
            let p_min_bound = x / (m * z);
            let p_max = isqrt(x_div_m);
            if p_min_bound < p_max {
                let p_start_idx = partition_point_le(primes, p_min_bound);
                let p_end_idx = partition_point_le(primes, p_max);
                if p_start_idx < p_end_idx {
                    let sub_sum = m_leaves(x_div_m, p_start_idx, p_end_idx, primes, reciprocals, pi_table);
                    proof {
                        assert(sub_sum == leaves);
                        assert(mu_m as int * sub_sum == if mu_m == 1 {
                            sub_sum as int
                        } else {
                            -sub_sum
                        }) by (nonlinear_arith)
                            requires
                                mu_m == 1 || mu_m == -1,
                        ;
                    }
                    chunk_sum = (chunk_sum as i128 + (mu_m as i128) * (sub_sum as i128)) as i64;
                } else {
                    assert(leaves == 0);
                }
            } else {
                assert(leaves == 0);
            }
        }
        proof {
            if mu_m == 0 {
                assert(0 * leaves == 0);
            }
        }
        m += 1;
    }
    chunk_sum
}

} // verus!
