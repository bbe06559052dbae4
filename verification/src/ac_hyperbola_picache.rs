//! Chained hyperbola walk: the quotient v runs downwards so that the low end
//! of band v is the high end of band v + 1, halving divisions and lookups.
use vstd::prelude::*;
use crate::leaf_sums::{
    ac_leaf, ac_leaf_sum, index_sum, lookup_exact_upto, table_or_slice_pi,
    lemma_index_sum_closed, lemma_lookup_exact, lemma_lookup_range,
    lemma_prime_sum_shared_weight, lemma_prime_sum_split, lemma_quotient_in_band,
};
use crate::picache::PiCache;
use crate::pi_table::PiTable;
use crate::primality::{prime_count, is_prime, lemma_prime_count_monotone, lemma_prime_count_bound};
use crate::intmath::{clamp_spec, clamp_u64};
use vstd::arithmetic::div_mod::{lemma_div_is_ordered_by_denominator, lemma_fundamental_div_mod};

verus! {

/// Inputs on which the chained walk is defined and its i64 arithmetic
/// exact: every running total, the leaves of the primes in (p_min, b] for
/// p_min <= b <= p_max, fits in i64.
pub open spec fn chained_domain(
    x_div_m: int,
    p_min: int,
    p_max: int,
    max_y: int,
    cache_limit: int,
    s: Seq<u64>,
) -> bool {
    &&& p_max <= x_div_m
    &&& x_div_m / (p_min + 1) < u64::MAX
    &&& p_max <= 0x2000_0000_0000_0000
    &&& s.len() <= 0x1000_0000_0000_0000
    &&& x_div_m / (p_min + 1) <= max_y || x_div_m / (p_min + 1) <= cache_limit
    &&& p_max <= max_y || p_max <= cache_limit
    &&& lookup_exact_upto(max_y, s, p_max)
    &&& forall|b: int|
        p_min <= b <= p_max ==> i64::MIN <= #[trigger] ac_leaf_sum(x_div_m, p_min, b, table_or_slice_pi(max_y, s))
            <= i64::MAX
}

fn lookup_chained(pi_table: &PiTable, picache: &PiCache, v: u64) -> (r: u64)
    requires
        pi_table.valid(),
        picache.valid(),
        v <= pi_table.max_y || v <= picache.limit,
    ensures
        r == table_or_slice_pi(pi_table.max_y as int, picache.source@)(v as int),
{
    if v <= pi_table.max_y {
        pi_table.pi(v)
    } else {
        picache.pi(v)
    }
}

proof fn lemma_band_edges(xm: int, pmin: int, pmax: int)
    requires
        0 <= pmin < pmax <= xm,
    ensures
        xm / pmax >= 1,
        xm / (xm / pmax) >= pmax,
        xm / (xm / (pmin + 1) + 1) <= pmin,
        xm / pmax <= xm / (pmin + 1),
{
    lemma_fundamental_div_mod(xm, pmax);
    let q = xm / pmax;
    assert(q >= 1) by (nonlinear_arith)
        requires
            xm == pmax * q + xm % pmax,
            0 <= xm % pmax < pmax,
            pmax <= xm,
    ;
    lemma_fundamental_div_mod(xm, q);
    let r = xm / q;
    assert(r >= pmax) by (nonlinear_arith)
        requires
            xm == pmax * q + xm % pmax,
            xm % pmax >= 0,
            xm == q * r + xm % q,
            xm % q < q,
            q >= 1,
    ;
    let q2 = xm / (pmin + 1);
    lemma_fundamental_div_mod(xm, pmin + 1);
    assert(q2 >= 0) by (nonlinear_arith)
        requires
            xm >= 0,
            pmin >= 0,
            q2 == xm / (pmin + 1),
    ;
    lemma_fundamental_div_mod(xm, q2 + 1);
    let r2 = xm / (q2 + 1);
    assert(r2 <= pmin) by (nonlinear_arith)
        requires
            xm == (pmin + 1) * q2 + xm % (pmin + 1),
            xm % (pmin + 1) < pmin + 1,
            xm == (q2 + 1) * r2 + xm % (q2 + 1),
            xm % (q2 + 1) >= 0,
            q2 >= 0,
            pmin >= 0,
    ;
    lemma_div_is_ordered_by_denominator(xm, pmin + 1, pmax);
}

/// Sum over primes p in (p_min, p_max] of pi(x_div_m / p) - pi(p) + 1, with
/// pi answered by `pi_table` up to its reach and by `picache` above it.
pub fn evaluate_ac_hyperbola_chained(
    x_div_m: u64,
    p_min: u64,
    p_max: u64,
    pi_table: &PiTable,
    picache: &PiCache,
) -> (r: i64)
    requires
        pi_table.valid(),
        picache.valid(),
        p_min < p_max ==> chained_domain(
            x_div_m as int,
            p_min as int,
            p_max as int,
            pi_table.max_y as int,
            picache.limit as int,
            picache.source@,
        ),
    ensures
        r == ac_leaf_sum(
            x_div_m as int,
            p_min as int,
            p_max as int,
            table_or_slice_pi(pi_table.max_y as int, picache.source@),
        ),
{
    if p_min >= p_max {
        return 0;
    }
    let ghost s = picache.source@;
    let ghost xm = x_div_m as int;
    let ghost piv = table_or_slice_pi(pi_table.max_y as int, s);
    let ghost f = ac_leaf(xm, piv);
    let pi_max = pi_table.max_y;
    let v_min = x_div_m / p_max;
    let v_max = x_div_m / (p_min + 1);
    proof {
        lemma_band_edges(xm, p_min as int, p_max as int);
    }
    if v_min > v_max {
        return 0;
    }
    proof {
        lemma_prime_count_bound(p_max as int);
    }
    let mut sum: i64 = 0;
    // Seed the chain at v_max + 1: its band ends at p_min.
    let mut next_p = clamp_u64(x_div_m / (v_max + 1), p_min, p_max);
    proof {
        lemma_lookup_exact(pi_table.max_y as int, s, p_max as int, next_p as int);
        lemma_prime_count_monotone(next_p as int, p_max as int);
    }
    let mut next_idx = lookup_chained(pi_table, picache, next_p) as i128;
    let mut v = v_max + 1;
    while v > v_min
        invariant
            1 <= v_min <= v <= v_max + 1,
            v_min == xm / (p_max as int),
            v_max == xm / (p_min + 1),
            xm / (v_max + 1) <= p_min,
            xm / (v_min as int) >= p_max,
            xm == x_div_m,
            p_min < p_max <= xm,
            pi_table.valid(),
            picache.valid(),
            pi_max == pi_table.max_y,
            s == picache.source@,
            piv == table_or_slice_pi(pi_table.max_y as int, s),
            f == ac_leaf(xm, piv),
            chained_domain(xm, p_min as int, p_max as int, pi_table.max_y as int, picache.limit as int, s),
            next_p == clamp_spec(xm / (v as int), p_min as int, p_max as int),
            next_idx == prime_count(next_p as int),
            sum == ac_leaf_sum(xm, p_min as int, next_p as int, piv),
        decreases v - v_min,
    {
        v = v - 1;
        let ghost pl = next_p as int;
        proof {
            lemma_div_is_ordered_by_denominator(xm, v as int, v + 1);
            lemma_div_is_ordered_by_denominator(xm, v as int, v_max as int);
            lemma_div_is_ordered_by_denominator(xm, v_min as int, v as int);
        }
        let p_high = clamp_u64(x_div_m / v, p_min, p_max);
        proof {
            lemma_lookup_exact(pi_table.max_y as int, s, p_max as int, p_high as int);
            lemma_prime_count_monotone(p_high as int, p_max as int);
            lemma_prime_count_monotone(pl, p_high as int);
            lemma_prime_count_bound(p_max as int);
            lemma_prime_sum_split(p_min as int, pl, p_high as int, f);
            assert(i64::MIN <= ac_leaf_sum(xm, p_min as int, p_high as int, piv) <= i64::MAX);
        }
        let idx_high = lookup_chained(pi_table, picache, p_high) as i128;
        let p_low = next_p;
        let idx_low = next_idx;
        next_p = p_high;
        next_idx = idx_high;
        if p_low < p_high {
            let delta_pi = idx_high - idx_low;
            if delta_pi > 0 {
                proof {
                    lemma_div_is_ordered_by_denominator(xm, 1, v as int);
                    lemma_lookup_range(pi_table.max_y as int, s, v as int);
                }
                let pi_v = lookup_chained(pi_table, picache, v) as i128;
                proof {
                    assert forall|p: int| pl < p <= p_high && is_prime(p) implies #[trigger] f(p)
                        == (pi_v + 1) - prime_count(p) by {
                        lemma_quotient_in_band(xm, v as int, p);
                    }
                    lemma_prime_sum_shared_weight(pl, p_high as int, f, pi_v + 1);
                    lemma_index_sum_closed(idx_low as int, idx_high as int);
                }
                let i_a = idx_low + 1;
                let i_b = idx_high;
                assert((i_a + i_b) * delta_pi <= (2 * p_max + 1) * p_max) by (nonlinear_arith)
                    requires
                        0 <= i_a + i_b <= 2 * p_max + 1,
                        0 < delta_pi <= p_max,
                ;
                assert((2 * p_max + 1) * p_max <= 0x4000_0000_0000_0001 * 0x2000_0000_0000_0000) by (nonlinear_arith)
                    requires
                        0 <= p_max <= 0x2000_0000_0000_0000,
                ;
                assert(delta_pi * (pi_v + 1) <= 0x2000_0000_0000_0000 * 0x3_0000_0000_0000_0000) by (nonlinear_arith)
                    requires
                        0 < delta_pi <= p_max,
                        p_max <= 0x2000_0000_0000_0000,
                        0 <= pi_v + 1 <= 0x3_0000_0000_0000_0000,
                ;
                let sum_pi = (i_a + i_b) * delta_pi / 2;
                assert(sum_pi == index_sum(idx_low as int, idx_high as int));
                assert(delta_pi * (pi_v + 1) - sum_pi == ac_leaf_sum(xm, pl, p_high as int, piv));
                sum = (sum as i128 + (delta_pi * (pi_v + 1) - sum_pi)) as i64;
            } else {
                proof {
                    lemma_prime_count_monotone(pl, p_high as int);
                    crate::leaf_sums::lemma_prime_sum_no_primes(pl, p_high as int, f);
                }
            }
        }
    }
    sum
}

} // verus!
