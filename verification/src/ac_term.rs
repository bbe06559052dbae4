//! Fused ordinary and easy special AC leaves: the evaluation of one chunk
//! of m-values, and the adaptive m-dispenser that hands the chunks out
//! (64-wide over the dense head, the first 5% of m and at least 64;
//! 256-wide over the tail).
use vstd::prelude::*;
use crate::intmath::{max_u64, max_spec};
use crate::factor_table::CompressedFactorTable;
use crate::leaf_sums::{index_leaf_sum, table_or_slice_pi, lemma_lookup_range};
use crate::magic_reciprocal::FastDiv64;
use crate::pi_table::PiTable;
use crate::primality::{count_le, sorted, strip_sentinel, lemma_count_le_bound};
use crate::roots::{isqrt, floor_sqrt};
use crate::sampled_index::SampledPrimeIndex;
use vstd::arithmetic::div_mod::lemma_div_is_ordered_by_denominator;

verus! {

/// Chunk width used at `curr`.
pub open spec fn adaptive_chunk(curr: int, dense_threshold: int) -> int {
    if curr <= dense_threshold {
        64
    } else {
        256
    }
}

/// Hands out consecutive chunks `[start, end)` of m-values covering `[1, y]`.
pub struct AcWorkDispenser {
    cursor: u64,
    y: u64,
    dense_threshold: u64,
}

impl AcWorkDispenser {
    /// The first m-value not handed out yet.
    pub closed spec fn cursor(&self) -> int {
        self.cursor as int
    }

    /// The last m-value to hand out.
    pub closed spec fn limit(&self) -> int {
        self.y as int
    }

    /// Last m-value of the dense head.
    pub closed spec fn dense_threshold(&self) -> int {
        self.dense_threshold as int
    }

    /// A dispenser starting at m = 1 whose dense head ends at max(y / 20, 64).
    pub fn new(y: u64) -> (d: Self)
        ensures
            d.cursor() == 1,
            d.limit() == y,
            d.dense_threshold() == if y / 20 >= 64 { y / 20 } else { 64 },
    {
        Self { cursor: 1, y, dense_threshold: max_u64(y / 20, 64) }
    }

    /// Claims the next chunk; `None` once every m in `[1, y]` was handed out.
    pub fn claim_chunk(&mut self) -> (r: Option<(u64, u64)>)
        requires
            old(self).limit() < u64::MAX,
            old(self).cursor() <= old(self).limit() ==> old(self).cursor() + adaptive_chunk(
                old(self).cursor(),
                old(self).dense_threshold(),
            ) <= u64::MAX,
        ensures
            final(self).limit() == old(self).limit(),
            final(self).dense_threshold() == old(self).dense_threshold(),
            match r {
                None => old(self).cursor() > old(self).limit() && final(self).cursor() == old(self).cursor(),
                Some((start, end)) => {
                    let e = start + adaptive_chunk(start as int, old(self).dense_threshold());
                    &&& old(self).cursor() <= old(self).limit()
                    &&& start == old(self).cursor()
                    &&& end == if e < old(self).limit() + 1 { e } else { old(self).limit() + 1 }
                    &&& start < end <= old(self).limit() + 1
                    &&& final(self).cursor() == end
                },
            },
    {
        let curr = self.cursor;
        if curr > self.y {
            return None;
        }
        let chunk_size: u64 = if curr <= self.dense_threshold {
            64
        } else {
            256
        };
        let next = if curr + chunk_size < self.y + 1 {
            curr + chunk_size
        } else {
            self.y + 1
        };
        self.cursor = next;
        Some((curr, next))
    }
}

/// The fused leaves of one m: over the primes max(x / m / z, gpf(m)) < p
/// <= sqrt(x / m) (1-based indices i into the 0-led list), the sum of
/// piv(x / m / p) - i + 1.
pub open spec fn fused_m_leaves(
    x: int,
    z: int,
    m: int,
    g: int,
    primes: Seq<u64>,
    piv: spec_fn(int) -> int,
) -> int {
    let s = strip_sentinel(primes);
    let xm = x / m;
    let pmin = max_spec(xm / z, g);
    let pmax = floor_sqrt(xm);
    if pmin >= pmax {
        0
    } else {
        index_leaf_sum(xm, primes, count_le(s, pmin) + 1int, count_le(s, pmax) + 1int, piv, 0)
    }
}

/// sum over m in [m0, m1) with mu(m) != 0 of +/- the fused leaves of m
/// (+ for mu(m) = 1), gpf read from `gpf`.
pub open spec fn fused_chunk_sum(
    x: int,
    z: int,
    mu: Seq<i8>,
    gpf: Seq<u32>,
    primes: Seq<u64>,
    piv: spec_fn(int) -> int,
    m0: int,
    m1: int,
) -> int
    decreases m1 - m0,
{
    if m1 <= m0 {
        0
    } else {
        let m = m1 - 1;
        let leaves = fused_m_leaves(x, z, m, gpf[m] as int, primes, piv);
        fused_chunk_sum(x, z, mu, gpf, primes, piv, m0, m1 - 1) + if mu[m] == 0 {
            0
        } else if mu[m] == 1 {
            leaves
        } else {
            -leaves
        }
    }
}

/// Chunks add up: the fused leaves of [m0, m2) are those of [m0, m1) and
/// of [m1, m2), however the m-range is cut.
pub proof fn lemma_fused_chunks_add(
    x: int,
    z: int,
    mu: Seq<i8>,
    gpf: Seq<u32>,
    primes: Seq<u64>,
    piv: spec_fn(int) -> int,
    m0: int,
    m1: int,
    m2: int,
)
    requires
        m0 <= m1 <= m2,
    ensures
        fused_chunk_sum(x, z, mu, gpf, primes, piv, m0, m2) == fused_chunk_sum(x, z, mu, gpf, primes, piv, m0, m1)
            + fused_chunk_sum(x, z, mu, gpf, primes, piv, m1, m2),
    decreases m2 - m1,
{
    if m1 < m2 {
        lemma_fused_chunks_add(x, z, mu, gpf, primes, piv, m0, m1, m2 - 1);
    }
}

/// The fused sums of the chunks [cuts[0], cuts[1]), [cuts[1], cuts[2]), ...
pub open spec fn fused_chunks_total(
    x: int,
    z: int,
    mu: Seq<i8>,
    gpf: Seq<u32>,
    primes: Seq<u64>,
    piv: spec_fn(int) -> int,
    cuts: Seq<int>,
) -> int
    decreases cuts.len(),
{
    if cuts.len() < 2 {
        0
    } else {
        fused_chunks_total(x, z, mu, gpf, primes, piv, cuts.drop_last()) + fused_chunk_sum(
            x,
            z,
            mu,
            gpf,
            primes,
            piv,
            cuts[cuts.len() - 2],
            cuts[cuts.len() - 1],
        )
    }
}

/// However the m-range is cut into consecutive chunks (as the dispenser
/// hands them to the workers), the chunk sums add up to the sum of the
/// whole range: the total does not depend on the cutting, so any number
/// of workers gives the single-worker total.
pub proof fn lemma_fused_chunks_tile(
    x: int,
    z: int,
    mu: Seq<i8>,
    gpf: Seq<u32>,
    primes: Seq<u64>,
    piv: spec_fn(int) -> int,
    cuts: Seq<int>,
)
    requires
        cuts.len() >= 1,
        forall|i: int| 0 <= i < cuts.len() - 1 ==> #[trigger] cuts[i] <= cuts[i + 1],
    ensures
        fused_chunks_total(x, z, mu, gpf, primes, piv, cuts) == fused_chunk_sum(
            x,
            z,
            mu,
            gpf,
            primes,
            piv,
            cuts[0],
            cuts[cuts.len() - 1],
        ),
    decreases cuts.len(),
{
    if cuts.len() >= 2 {
        let init = cuts.drop_last();
        assert forall|i: int| 0 <= i < init.len() - 1 implies #[trigger] init[i] <= init[i + 1] by {
            assert(init[i] == cuts[i] && init[i + 1] == cuts[i + 1]);
        }
        lemma_fused_chunks_tile(x, z, mu, gpf, primes, piv, init);
        assert(init[0] == cuts[0]);
        assert(init[init.len() - 1] == cuts[cuts.len() - 2]);
        lemma_cuts_ordered(cuts, 0, cuts.len() - 2);
        lemma_fused_chunks_add(x, z, mu, gpf, primes, piv, cuts[0], cuts[cuts.len() - 2], cuts[cuts.len() - 1]);
    } else {
        assert(fused_chunk_sum(x, z, mu, gpf, primes, piv, cuts[0], cuts[0]) == 0);
    }
}

/// Cut points that rise step by step rise overall.
proof fn lemma_cuts_ordered(cuts: Seq<int>, i: int, j: int)
    requires
        0 <= i <= j < cuts.len(),
        forall|k: int| 0 <= k < cuts.len() - 1 ==> #[trigger] cuts[k] <= cuts[k + 1],
    ensures
        cuts[i] <= cuts[j],
    decreases j - i,
{
    if i < j {
        lemma_cuts_ordered(cuts, i, j - 1);
        assert(cuts[j - 1] <= cuts[j]);
    }
}

/// Every partial sum of the chunk, from `m0` up to each `k <= m1`, fits in
/// i64.
pub open spec fn fused_prefixes_fit(
    x: int,
    z: int,
    mu: Seq<i8>,
    gpf: Seq<u32>,
    primes: Seq<u64>,
    piv: spec_fn(int) -> int,
    m0: int,
    m1: int,
) -> bool {
    forall|k: int| m0 <= k <= m1 ==> i64::MIN <= #[trigger] fused_chunk_sum(x, z, mu, gpf, primes, piv, m0, k) <= i64::MAX
}

/// Every leaf of m has a prepared divisor for its prime.
pub open spec fn fused_m_domain(x: int, z: int, m: int, g: int, primes: Seq<u64>, rec: Seq<FastDiv64>) -> bool {
    let s = strip_sentinel(primes);
    let xm = x / m;
    let pmin = max_spec(xm / z, g);
    let pmax = floor_sqrt(xm);
    pmin < pmax ==> {
        &&& count_le(s, pmax) + 1 <= primes.len()
        &&& count_le(s, pmax) + 1 <= rec.len()
        &&& forall|i: int|
            count_le(s, pmin) + 1 <= i < count_le(s, pmax) + 1 ==> (#[trigger] rec[i]).divisor == primes[i]
                && primes[i] > 0 && rec[i].max_n >= xm
    }
}

/// The fused AC leaves of the chunk [start_m, end_m) of m-values: for each
/// m with mu(m) != 0, +/- the leaves of the primes
/// max(x / m / z, gpf(m)) < p <= sqrt(x / m), with pi read from the table
/// up to its reach and counted in the prime slice above it.
#[verifier::spinoff_prover]
#[verifier::rlimit(40)]
pub fn compute_ac_fused_chunk(
    start_m: u64,
    end_m: u64,
    x: u64,
    z: u64,
    primes: &[u64],
    div_slice: &[FastDiv64],
    pi_table: &PiTable,
    sampled_idx: &SampledPrimeIndex,
    prime_slice: &[u64],
    factor_table: &CompressedFactorTable,
    mu: &[i8],
) -> (r: i64)
    requires
        1 <= start_m <= end_m,
        end_m <= mu@.len(),
        end_m <= factor_table.limit + 1,
        z >= 1,
        sorted(prime_slice@),
        prime_slice@ == strip_sentinel(primes@),
        primes@.len() >= 1,
        primes@[0] == 0,
        pi_table.valid(),
        factor_table.valid(),
        primes@.len() <= 0x1000_0000_0000_0000,
        fused_prefixes_fit(
            x as int,
            z as int,
            mu@,
            factor_table.gpf@,
            primes@,
            table_or_slice_pi(pi_table.max_y as int, prime_slice@),
            start_m as int,
            end_m as int,
        ),
        forall|m: int| start_m <= m < end_m ==> #[trigger] fused_m_domain(
            x as int,
            z as int,
            m,
            factor_table.gpf@[m] as int,
            primes@,
            div_slice@,
        ),
    ensures
        r == fused_chunk_sum(
            x as int,
            z as int,
            mu@,
            factor_table.gpf@,
            primes@,
            table_or_slice_pi(pi_table.max_y as int, prime_slice@),
            start_m as int,
            end_m as int,
        ),
{
    let ghost ps = primes@;
    let ghost s = prime_slice@;
    let ghost piv = table_or_slice_pi(pi_table.max_y as int, s);
    let ghost len = ps.len() as int;
    let ghost unit = len * (len + x + 2);
    proof {
        assert(unit <= 0x1000_0000_0000_0000 * 0x2_0000_0000_0000_0000) by (nonlinear_arith)
            requires
                unit == len * (len + x + 2),
                0 <= len <= 0x1000_0000_0000_0000,
                0 <= x <= u64::MAX,
        ;
        assert(s.len() + 1 == len);
    }
    let mut chunk_sum: i64 = 0;
    let mut m = start_m;
    while m < end_m
        invariant
            ps == primes@,
            s == prime_slice@,
            s == strip_sentinel(ps),
            ps.len() >= 1,
            ps[0] == 0,
            sorted(s),
            s.len() + 1 == len,
            len == ps.len(),
            piv == table_or_slice_pi(pi_table.max_y as int, s),
            pi_table.valid(),
            factor_table.valid(),
            1 <= start_m <= m <= end_m,
            end_m <= mu@.len(),
            end_m <= factor_table.limit + 1,
            z >= 1,
            unit == len * (len + x + 2),
            unit <= 0x1000_0000_0000_0000 * 0x2_0000_0000_0000_0000,
            len <= 0x1000_0000_0000_0000,
            fused_prefixes_fit(x as int, z as int, mu@, factor_table.gpf@, ps, piv, start_m as int, end_m as int),
            forall|k: int| start_m <= k < end_m ==> #[trigger] fused_m_domain(
                x as int,
                z as int,
                k,
                factor_table.gpf@[k] as int,
                ps,
                div_slice@,
            ),
            chunk_sum == fused_chunk_sum(
                x as int,
                z as int,
                mu@,
                factor_table.gpf@,
                ps,
                piv,
                start_m as int,
                m as int,
            ),
        decreases end_m - m,
    {
        let ghost leaves = fused_m_leaves(x as int, z as int, m as int, factor_table.gpf@[m as int] as int, ps, piv);
        proof {
            assert(fused_m_domain(x as int, z as int, m as int, factor_table.gpf@[m as int] as int, ps, div_slice@));
            assert(i64::MIN <= fused_chunk_sum(x as int, z as int, mu@, factor_table.gpf@, ps, piv, start_m as int, m + 1) <= i64::MAX);
        }
        let mu_m = mu[m as usize];
        let mut m_term: i128 = 0;
        let mut evaluated = false;
        if mu_m != 0 {
            let gpf_m = factor_table.gpf(m);
            proof {
                assert(gpf_m == factor_table.gpf@[m as int]);
            }
            let x_div_m = x / m;
            let p_min_bound = max_u64(x_div_m / z, gpf_m);
            let p_max_bound = isqrt(x_div_m);
            if p_min_bound < p_max_bound {
                let slice_len = prime_slice.len();
                let plen = primes.len();
                proof {
                    lemma_count_le_bound(s, p_min_bound as int);
                    lemma_count_le_bound(s, p_max_bound as int);
                    assert(slice_len + 1 == len);
                }
                let p_start_idx = sampled_idx.pi(prime_slice, p_min_bound) as usize + 1;
                let p_end_idx = sampled_idx.pi(prime_slice, p_max_bound) as usize + 1;
                proof {
                    lemma_count_le_bound(s, p_min_bound as int);
                    lemma_count_le_bound(s, p_max_bound as int);
                    lemma_div_is_ordered_by_denominator(x as int, 1, m as int);
                }
                let mut i = p_start_idx;
                let ghost lo = p_start_idx as int;
                proof {
                    let g = factor_table.gpf@[m as int] as int;
                    let pmin = max_spec(x as int / m as int / z as int, g);
                    assert(p_min_bound == pmin);
                    assert(p_max_bound == floor_sqrt(x as int / m as int));
                    assert(lo == count_le(s, pmin) + 1);
                    assert(p_end_idx == count_le(s, floor_sqrt(x as int / m as int)) + 1);
                    assert(fused_m_domain(x as int, z as int, m as int, g, ps, div_slice@));
                    assert(strip_sentinel(ps) == s);
                    assert(pmin < floor_sqrt(x as int / m as int));
                    assert(x_div_m == x as int / m as int);
                    let pmax = floor_sqrt(x as int / m as int);
                    assert(forall|i: int|
                        count_le(s, pmin) + 1 <= i < count_le(s, pmax) + 1 ==> (#[trigger] div_slice@[i]).divisor
                            == ps[i] && ps[i] > 0 && div_slice@[i].max_n >= x as int / m as int);
                    assert forall|k: int| lo <= k < p_end_idx implies (#[trigger] div_slice@[k]).divisor == ps[k]
                        && ps[k] > 0 && div_slice@[k].max_n >= x_div_m by {
                        assert(count_le(s, pmin) + 1 <= k < count_le(s, pmax) + 1);
                        assert(div_slice@[k].divisor == ps[k]);
                        assert(ps[k] > 0);
                        assert(div_slice@[k].max_n >= x as int / m as int);
                        assert(div_slice@[k].max_n >= x_div_m);
                    }
                }
                assert(0 * (x + len + 1) == 0 && 0 * len == 0) by (nonlinear_arith);
                while i < p_end_idx
                    invariant
                        ps == primes@,
                        s == prime_slice@,
                        sorted(s),
                        piv == table_or_slice_pi(pi_table.max_y as int, s),
                        pi_table.valid(),
                        s.len() + 1 == len,
                        len == ps.len(),
                        x_div_m <= x,
                        unit == len * (len + x + 2),
                        unit <= 0x1000_0000_0000_0000 * 0x2_0000_0000_0000_0000,
                        len <= 0x1000_0000_0000_0000,
                        1 <= lo <= i,
                        lo <= p_end_idx ==> i <= p_end_idx,
                        lo > p_end_idx ==> i == lo,
                        p_end_idx <= len,
                        p_end_idx <= div_slice@.len(),
                        forall|k: int| lo <= k < p_end_idx ==> (#[trigger] div_slice@[k]).divisor == ps[k]
                            && ps[k] > 0 && div_slice@[k].max_n >= x_div_m,
                        -((i - lo) * len) <= m_term <= (i - lo) * (x + len + 1),
                        m_term == index_leaf_sum(x_div_m as int, ps, lo, i as int, piv, 0),
                    decreases p_end_idx - i,
                {
                    let d = &div_slice[i];
                    let v = d.div(x_div_m);
                    proof {
                        lemma_div_is_ordered_by_denominator(x_div_m as int, 1, d.divisor as int);
                        lemma_lookup_range(pi_table.max_y as int, s, v as int);
                        lemma_count_le_bound(s, v as int);
                        crate::primality::lemma_prime_count_bound(v as int);
                        assert((i + 1 - lo) * (x + len + 1) == (i - lo) * (x + len + 1) + x + len + 1) by (nonlinear_arith);
                        assert((i + 1 - lo) * len == (i - lo) * len + len) by (nonlinear_arith);
                        assert((i + 1 - lo) * (x + len + 1) <= len * (len + x + 2)) by (nonlinear_arith)
                            requires
                                i + 1 - lo <= len,
                                x >= 0,
                                len >= 0,
                        ;
                        assert((i + 1 - lo) * len <= len * (len + x + 2)) by (nonlinear_arith)
                            requires
                                i + 1 - lo <= len,
                                x >= 0,
                                len >= 0,
                        ;
                    }
                    let pi_v = if v <= pi_table.max_y {
                        pi_table.pi(v) as i128
                    } else {
                        sampled_idx.pi(prime_slice, v) as i128
                    };
                    let pi_p = i as i128;
                    m_term = m_term + (pi_v - pi_p + 1);
                    i += 1;
                }
                proof {
                    if p_end_idx < lo {
                        assert(index_leaf_sum(x_div_m as int, ps, lo, p_end_idx as int, piv, 0) == 0);
                        assert(index_leaf_sum(x_div_m as int, ps, lo, lo, piv, 0) == 0);
                    } else {
                        assert(i == p_end_idx);
                    }
                    assert(m_term == leaves);
                    assert((i - lo) * (x + len + 1) <= len * (len + x + 2)) by (nonlinear_arith)
                        requires
                            i - lo <= len,
                            x >= 0,
                            len >= 0,
                    ;
                    assert((i - lo) * len <= len * (len + x + 2)) by (nonlinear_arith)
                        requires
                            0 <= i - lo <= len,
                            x >= 0,
                            len >= 0,
                    ;
                }
                evaluated = true;
            }
        }
        if mu_m == 1 {
            chunk_sum = (chunk_sum as i128 + m_term) as i64;
        } else if mu_m != 0 {
            chunk_sum = (chunk_sum as i128 - m_term) as i64;
        }
        proof {
            assert(mu_m != 0 ==> m_term == leaves);
        }
        m += 1;
    }
    chunk_sum
}

} // verus!
