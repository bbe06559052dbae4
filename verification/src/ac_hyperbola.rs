//! AC leaves by Dirichlet-hyperbola inversion: instead of one division and
//! one pi lookup per prime p, step over the quotient v = x_div_m / p and
//! account for all primes sharing v with a closed form.
use vstd::prelude::*;
use crate::leaf_sums::{
    ac_leaf, ac_leaf_sum, index_sum, lookup_exact_upto, table_or_slice_pi,
    lemma_index_sum_closed, lemma_lookup_exact, lemma_lookup_range,
    lemma_prime_sum_shared_weight, lemma_prime_sum_split, lemma_quotient_in_band,
};
use crate::pi_table::PiTable;
use crate::primality::{prime_count, sorted, strip_sentinel, is_prime, lemma_prime_count_monotone, lemma_prime_count_bound};
use crate::sampled_index::{SampledPrimeIndex, strip_sentinel_slice};
use crate::intmath::{max_u64, min_u64, max_spec, min_spec};
use vstd::arithmetic::div_mod::{lemma_div_is_ordered_by_denominator, lemma_fundamental_div_mod};

verus! {

/// Inputs on which the hyperbola walk is defined and its i64 arithmetic
/// exact: every running total, the leaves of the primes in (b, p_max] for
/// p_min <= b <= p_max, fits in i64.
pub open spec fn hyperbola_domain(x_div_m: int, p_min: int, p_max: int, max_y: int, s: Seq<u64>) -> bool {
    &&& p_max <= x_div_m
    &&& x_div_m / (p_min + 1) < u64::MAX
    &&& p_max <= 0x2000_0000_0000_0000
    &&& s.len() <= 0x1000_0000_0000_0000
    &&& lookup_exact_upto(max_y, s, p_max)
    &&& forall|b: int|
        p_min <= b <= p_max ==> i64::MIN <= #[trigger] ac_leaf_sum(x_div_m, b, p_max, table_or_slice_pi(max_y, s))
            <= i64::MAX
}

/// pi(v) from the table when it reaches `v`, else from the prime slice.
pub(crate) fn lookup_pi(pi_table: &PiTable, sampled_idx: &SampledPrimeIndex, s: &[u64], v: u64) -> (r: u64)
    requires
        pi_table.valid(),
        sorted(s@),
    ensures
        r == table_or_slice_pi(pi_table.max_y as int, s@)(v as int),
{
    if v <= pi_table.max_y {
        pi_table.pi(v)
    } else {
        sampled_idx.pi(s, v)
    }
}

/// Consecutive quotient bands chain: the band of v extends the tail sum that
/// starts at the band of v - 1.
proof fn lemma_hyperbola_step(xm: int, v: int, pmin: int, pmax: int, piv: spec_fn(int) -> int)
    requires
        xm >= 0,
        v >= 1,
        0 <= pmin < pmax,
    ensures
        max_spec(xm / (v + 1), pmin) <= max_spec(xm / v, pmin),
        ac_leaf_sum(xm, max_spec(xm / (v + 1), pmin), pmax, piv) == ac_leaf_sum(
            xm,
            max_spec(xm / v, pmin),
            pmax,
            piv,
        ) + if max_spec(xm / (v + 1), pmin) < min_spec(xm / v, pmax) {
            ac_leaf_sum(xm, max_spec(xm / (v + 1), pmin), min_spec(xm / v, pmax), piv)
        } else {
            0
        },
{
    lemma_div_is_ordered_by_denominator(xm, v, v + 1);
    let f = ac_leaf(xm, piv);
    let b = max_spec(xm / v, pmin);
    let pl = max_spec(xm / (v + 1), pmin);
    let ph = min_spec(xm / v, pmax);
    if xm / v <= pmax {
        if xm / v >= pmin {
            if pl < ph {
                lemma_prime_sum_split(pl, ph, pmax, f);
            }
        }
    } else {
        if pl < pmax {
        }
    }
}

/// The last band reaches down to p_min: x / (x / (p + 1) + 1) <= p.
proof fn lemma_band_floor(xm: int, pmin: int)
    requires
        xm >= 0,
        pmin >= 0,
    ensures
        xm / (xm / (pmin + 1) + 1) <= pmin,
{
    let q = xm / (pmin + 1);
    lemma_fundamental_div_mod(xm, pmin + 1);
    assert(q >= 0) by (nonlinear_arith)
        requires
            xm >= 0,
            pmin >= 0,
            q == xm / (pmin + 1),
    ;
    lemma_fundamental_div_mod(xm, q + 1);
    let r = xm / (q + 1);
    assert(r <= pmin) by (nonlinear_arith)
        requires
            xm == (pmin + 1) * q + xm % (pmin + 1),
            xm % (pmin + 1) < pmin + 1,
            xm == (q + 1) * r + xm % (q + 1),
            xm % (q + 1) >= 0,
            q >= 0,
            pmin >= 0,
    ;
}

/// The first band starts above p_max: x / (x / p) >= p for 1 <= p <= x.
proof fn lemma_band_ceiling(xm: int, pmax: int)
    requires
        1 <= pmax <= xm,
    ensures
        xm / pmax >= 1,
        xm / (xm / pmax) >= pmax,
{
    lemma_fundamental_div_mod(xm, pmax);
    let q = xm / pmax;
    assert(q >= 1) by (nonlinear_arith)
        requires
            xm == pmax * q + xm % pmax,
            0 <= xm % pmax < pmax,
            pmax <= xm,
    ;
    lemma_fundamental_div_mod(xm, q);
    let r = xm / q;
    assert(r >= pmax) by (nonlinear_arith)
        requires
            xm == pmax * q + xm % pmax,
            xm % pmax >= 0,
            xm == q * r + xm % q,
            xm % q < q,
            q >= 1,
    ;
}

/// Evaluates the AC leaves of one m by stepping over the quotient v
/// directly, building the prime-slice index on the fly.
pub fn evaluate_ac_hyperbola_m(
    x_div_m: u64,
    p_min: u64,
    p_max: u64,
    primes: &[u64],
    pi_table: &PiTable,
) -> (r: i64)
    requires
        pi_table.valid(),
        sorted(strip_sentinel(primes@)),
        p_min < p_max ==> hyperbola_domain(
            x_div_m as int,
            p_min as int,
            p_max as int,
            pi_table.max_y as int,
            strip_sentinel(primes@),
        ),
    ensures
        r == ac_leaf_sum(
            x_div_m as int,
            p_min as int,
            p_max as int,
            table_or_slice_pi(pi_table.max_y as int, strip_sentinel(primes@)),
        ),
{
    let prime_slice = strip_sentinel_slice(primes);
    let sampled_idx = SampledPrimeIndex::build(prime_slice);
    evaluate_ac_hyperbola_m_sampled(x_div_m, p_min, p_max, primes, pi_table, &sampled_idx)
}

/// Evaluates the AC leaves of one m,
/// sum over primes p in (p_min, p_max] of pi(x_div_m / p) - pi(p) + 1,
/// by stepping over the quotient v from x_div_m / p_max to x_div_m / (p_min + 1).
pub fn evaluate_ac_hyperbola_m_sampled(
    x_div_m: u64,
    p_min: u64,
    p_max: u64,
    primes: &[u64],
    pi_table: &PiTable,
    sampled_idx: &SampledPrimeIndex,
) -> (r: i64)
    requires
        pi_table.valid(),
        sorted(strip_sentinel(primes@)),
        p_min < p_max ==> hyperbola_domain(
            x_div_m as int,
            p_min as int,
            p_max as int,
            pi_table.max_y as int,
            strip_sentinel(primes@),
        ),
    ensures
        r == ac_leaf_sum(
            x_div_m as int,
            p_min as int,
            p_max as int,
            table_or_slice_pi(pi_table.max_y as int, strip_sentinel(primes@)),
        ),
{
    if p_min >= p_max {
        return 0;
    }
    let prime_slice = strip_sentinel_slice(primes);
    let ghost s = prime_slice@;
    let ghost xm = x_div_m as int;
    let ghost piv = table_or_slice_pi(pi_table.max_y as int, s);
    let ghost f = ac_leaf(xm, piv);
    let pi_max = pi_table.max_y;
    let v_min = x_div_m / p_max;
    let v_max = x_div_m / (p_min + 1);
    proof {
        lemma_band_ceiling(xm, p_max as int);
        lemma_band_floor(xm, p_min as int);
        lemma_div_is_ordered_by_denominator(xm, p_min + 1, p_max as int);
        lemma_prime_count_bound(p_max as int);
    }
    let mut sum: i64 = 0;
    let mut v = v_min;
    while v <= v_max
        invariant
            1 <= v_min <= v <= v_max + 1,
            v_min == xm / (p_max as int),
            v_max == xm / (p_min + 1),
            xm / (v_max + 1) <= p_min,
            xm / (v_min as int) >= p_max,
            xm == x_div_m,
            p_min < p_max,
            pi_table.valid(),
            pi_max == pi_table.max_y,
            s == prime_slice@,
            sorted(s),
            piv == table_or_slice_pi(pi_table.max_y as int, s),
            f == ac_leaf(xm, piv),
            hyperbola_domain(xm, p_min as int, p_max as int, pi_table.max_y as int, s),
            sum == ac_leaf_sum(xm, max_spec(xm / (v as int), p_min as int), p_max as int, piv),
        decreases v_max + 1 - v,
    {
        let ghost b = max_spec(xm / (v as int), p_min as int);
        let ghost pl = max_spec(xm / (v + 1), p_min as int);
        let ghost ph = min_spec(xm / (v as int), p_max as int);
        proof {
            lemma_hyperbola_step(xm, v as int, p_min as int, p_max as int, piv);
            lemma_prime_count_bound(p_max as int);
            lemma_lookup_range(pi_table.max_y as int, s, v as int);
            lemma_div_is_ordered_by_denominator(xm, 1, v as int);
        }
        let pi_v = lookup_pi(pi_table, sampled_idx, prime_slice, v) as i128;
        let p_low = max_u64(x_div_m / (v + 1), p_min);
        let p_high = min_u64(x_div_m / v, p_max);
        if p_low < p_high {
            proof {
                lemma_lookup_exact(pi_table.max_y as int, s, p_max as int, pl);
                lemma_lookup_exact(pi_table.max_y as int, s, p_max as int, ph);
                lemma_prime_count_monotone(pl, ph);
                lemma_prime_count_monotone(ph, p_max as int);
                lemma_prime_count_bound(p_max as int);
            }
            let idx_low_u = lookup_pi(pi_table, sampled_idx, prime_slice, p_low);
            let idx_high_u = lookup_pi(pi_table, sampled_idx, prime_slice, p_high);
            assert(idx_low_u <= idx_high_u <= p_max);
            let idx_low = idx_low_u as i128;
            let idx_high = idx_high_u as i128;
            let delta_pi = idx_high - idx_low;
            proof {
                assert forall|p: int| pl < p <= ph && is_prime(p) implies #[trigger] f(p) == (pi_v
                    + 1) - prime_count(p) by {
                    lemma_quotient_in_band(xm, v as int, p);
                }
                lemma_prime_sum_shared_weight(pl, ph, f, pi_v + 1);
                lemma_index_sum_closed(idx_low as int, idx_high as int);
            }
            if delta_pi > 0 {
                let i_a = idx_low + 1;
                let i_b = idx_high;
                assert((i_a + i_b) * delta_pi <= (2 * p_max + 1) * p_max) by (nonlinear_arith)
                    requires
                        0 <= i_a + i_b <= 2 * p_max + 1,
                        0 < delta_pi <= p_max,
                ;
                assert((2 * p_max + 1) * p_max <= 0x4000_0000_0000_0001 * 0x2000_0000_0000_0000) by (nonlinear_arith)
                    requires
                        0 <= p_max <= 0x2000_0000_0000_0000,
                ;
                assert(delta_pi * (pi_v + 1) <= 0x2000_0000_0000_0000 * 0x3_0000_0000_0000_0000) by (nonlinear_arith)
                    requires
                        0 < delta_pi <= p_max,
                        p_max <= 0x2000_0000_0000_0000,
                        0 <= pi_v + 1 <= 0x3_0000_0000_0000_0000,
                ;
                let sum_pi = (i_a + i_b) * delta_pi / 2;
                assert(sum_pi == index_sum(idx_low as int, idx_high as int));
                assert(delta_pi * (pi_v + 1) - sum_pi == ac_leaf_sum(xm, pl, ph, piv));
                assert(sum + (delta_pi * (pi_v + 1) - sum_pi) == ac_leaf_sum(xm, pl, p_max as int, piv));
                assert(i64::MIN <= ac_leaf_sum(xm, pl, p_max as int, piv) <= i64::MAX);
                sum = (sum as i128 + (delta_pi * (pi_v + 1) - sum_pi)) as i64;
            } else {
                assert(index_sum(idx_low as int, idx_high as int) == 0);
                assert(delta_pi * (pi_v + 1) == 0) by (nonlinear_arith)
                    requires
                        delta_pi == 0,
                ;
            }
        }
        v = v + 1;
    }
    sum
}

} // verus!
