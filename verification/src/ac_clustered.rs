//! AC leaves for one m with the primes whose quotients fall below a cube-root
//! threshold taken together: one table lookup per quotient value instead of
//! one per prime.
use vstd::prelude::*;
use crate::ac_monotone::{PiTableOps, leaf_domain, model_of};
use crate::leaf_sums::{index_leaf_sum, index_sum, leaf_prefixes_fit, lemma_index_sum_closed, lemma_index_leaf_sum_split};
use crate::magic_reciprocal::FastDiv64;
use crate::primality::{count_le, sorted, lemma_count_le_partition};
use crate::roots::icbrt;
use crate::sampled_index::partition_point_le;
use crate::segmented_pi::SegmentedPiTable;
use crate::intmath::min_u64;
use vstd::slice::slice_subrange;
use vstd::arithmetic::div_mod::lemma_fundamental_div_mod;

verus! {

/// Primes at indices [a, b) all have quotient v: their leaves sum to
/// (pi(v) + 1) * (b - a) - ((a + 1) + ... + b).
proof fn lemma_shared_quotient_sum(xm: int, s: Seq<u64>, a: int, b: int, piv: spec_fn(int) -> int, v: int)
    requires
        0 <= a <= b <= s.len(),
        forall|j: int| a <= j < b ==> xm / (#[trigger] s[j] as int) == v,
    ensures
        index_leaf_sum(xm, s, a, b, piv, 1) == (piv(v) + 1) * (b - a) - index_sum(a, b),
    decreases b - a,
{
    if a < b {
        lemma_shared_quotient_sum(xm, s, a, b - 1, piv, v);
        assert(xm / (s[b - 1] as int) == v);
        assert((piv(v) + 1) * (b - a) == (piv(v) + 1) * (b - 1 - a) + piv(v) + 1) by (nonlinear_arith);
    } else {
        assert((piv(v) + 1) * (b - a) == 0) by (nonlinear_arith)
            requires
                a == b,
        ;
    }
}

/// Sum of the leaves at indices [lo, hi), one prime at a time.
fn leaves_one_by_one(
    x_div_m: u64,
    lo: usize,
    hi: usize,
    primes: &[u64],
    reciprocals: &[FastDiv64],
    pi_table: &SegmentedPiTable,
) -> (r: i64)
    requires
        lo <= hi <= primes@.len(),
        leaf_domain(pi_table, x_div_m as int, primes@, reciprocals@, lo as int, hi as int),
        leaf_prefixes_fit(x_div_m as int, primes@, lo as int, hi as int, model_of(pi_table)),
    ensures
        r == index_leaf_sum(x_div_m as int, primes@, lo as int, hi as int, model_of(pi_table), 1),
{
    let ghost s = primes@;
    let ghost piv = model_of(pi_table);
    let ghost xm = x_div_m as int;
    let mut leaf_acc: i64 = 0;
    let mut idx = lo;
    while idx < hi
        invariant
            s == primes@,
            piv == model_of(pi_table),
            xm == x_div_m,
            lo <= idx <= hi <= s.len(),
            leaf_domain(pi_table, xm, s, reciprocals@, lo as int, hi as int),
            leaf_prefixes_fit(xm, s, lo as int, hi as int, piv),
            leaf_acc == index_leaf_sum(xm, s, lo as int, idx as int, piv, 1),
        decreases hi - idx,
    {
        let v = reciprocals[idx].div(x_div_m);
        let pi_v = PiTableOps::pi(pi_table, v);
        proof {
            assert(i64::MIN <= index_leaf_sum(xm, s, lo as int, idx + 1, piv, 1) <= i64::MAX);
        }
        let pi_p = (idx + 1) as i128;
        leaf_acc = (leaf_acc as i128 + (pi_v as i128) - pi_p + 1) as i64;
        idx += 1;
    }
    leaf_acc
}

/// AC leaves of one m over the primes p_min_bound < p <= p_max with
/// p_max <= sqrt(x_div_m): the sum of pi(x_div_m / p) - (index + 1) + 1,
/// with pi read from `pi_table`. Primes whose quotient lies at or below
/// min(2 cbrt(x_div_m), p_max) are grouped by quotient.
pub fn compute_ac_clustered_m(
    x_div_m: u64,
    p_min_bound: u64,
    p_max: u64,
    primes: &[u64],
    reciprocals: &[FastDiv64],
    pi_table: &SegmentedPiTable,
) -> (r: i64)
    requires
        sorted(primes@),
        p_max * p_max <= x_div_m,
        primes@.len() <= 0x1000_0000_0000_0000,
        p_min_bound < p_max ==> leaf_domain(
            pi_table,
            x_div_m as int,
            primes@,
            reciprocals@,
            count_le(primes@, p_min_bound as int) as int,
            count_le(primes@, p_max as int) as int,
        ),
        p_min_bound < p_max ==> leaf_prefixes_fit(
            x_div_m as int,
            primes@,
            count_le(primes@, p_min_bound as int) as int,
            count_le(primes@, p_max as int) as int,
            model_of(pi_table),
        ),
    ensures
        r == if p_min_bound >= p_max {
            0
        } else {
            index_leaf_sum(
                x_div_m as int,
                primes@,
                count_le(primes@, p_min_bound as int) as int,
                count_le(primes@, p_max as int) as int,
                model_of(pi_table),
                1,
            )
        },
{
    if p_min_bound >= p_max {
        return 0;
    }
    let ghost s = primes@;
    let ghost piv = model_of(pi_table);
    let ghost xm = x_div_m as int;
    let ghost len = s.len() as int;
    let p_start_idx = partition_point_le(primes, p_min_bound);
    let p_end_idx = partition_point_le(primes, p_max);
    proof {
        lemma_count_le_partition(s, p_min_bound as int, p_start_idx as int);
        lemma_count_le_partition(s, p_max as int, p_end_idx as int);
    }
    if p_start_idx >= p_end_idx {
        return 0;
    }
    let x_cbrt = icbrt(x_div_m);
    proof {
        assert(x_cbrt < 0x40_0000) by (nonlinear_arith)
            requires
                x_cbrt * x_cbrt * x_cbrt <= x_div_m,
                x_div_m <= u64::MAX,
                x_cbrt >= 0,
        ;
    }
    let v_cluster_limit = min_u64(x_cbrt * 2, p_max);
    if v_cluster_limit < 4 || p_end_idx - p_start_idx < 32 {
        return leaves_one_by_one(x_div_m, p_start_idx, p_end_idx, primes, reciprocals, pi_table);
    }
    let p_split_val = x_div_m / (v_cluster_limit + 1);
    let active = slice_subrange(primes, p_start_idx, p_end_idx);
    proof {
        assert forall|i: int, j: int| 0 <= i <= j < active@.len() implies #[trigger] active@[i]
            <= #[trigger] active@[j] by {
            assert(active@[i] == s[p_start_idx + i] && active@[j] == s[p_start_idx + j]);
        }
    }
    let split_idx = partition_point_le(active, p_split_val) + p_start_idx;
    proof {
        assert forall|j: int| p_start_idx <= j < split_idx implies #[trigger] s[j] <= p_split_val by {
            assert(s[j] == active@[j - p_start_idx]);
        }
        assert forall|j: int| split_idx <= j < p_end_idx implies #[trigger] s[j] > p_split_val by {
            assert(s[j] == active@[j - p_start_idx]);
        }
        // Every prime above the split shares the quotient p_max.
        assert forall|j: int| split_idx <= j < p_end_idx implies xm / (#[trigger] s[j] as int) == p_max
            && xm / (s[j] as int) <= v_cluster_limit by {
            let q = s[j] as int;
            assert(reciprocals@[j].divisor == s[j]);
            assert(q <= p_max);
            lemma_fundamental_div_mod(xm, q);
            lemma_fundamental_div_mod(xm, v_cluster_limit + 1);
            assert(xm / q <= v_cluster_limit) by (nonlinear_arith)
                requires
                    q > xm / (v_cluster_limit + 1),
                    q > 0,
                    xm == (v_cluster_limit + 1) * (xm / (v_cluster_limit + 1)) + xm % (v_cluster_limit + 1),
                    xm % (v_cluster_limit + 1) < v_cluster_limit + 1,
                    xm == q * (xm / q) + xm % q,
                    0 <= xm % q,
            ;
            assert(xm / q >= p_max) by (nonlinear_arith)
                requires
                    q <= p_max,
                    q > 0,
                    p_max * p_max <= xm,
                    xm == q * (xm / q) + xm % q,
                    xm % q < q,
            ;
        }
    }
    let mut sum: i128 = 0;
    // Clustered leaves, quotients descending from the top of the band.
    let p_split_prime = if split_idx < primes.len() {
        primes[split_idx]
    } else {
        0
    };
    let mut v = if p_split_prime > 0 {
        x_div_m / p_split_prime
    } else {
        v_cluster_limit
    };
    let v_min = x_div_m / p_max;
    let mut curr_p_high = p_end_idx;
    proof {
        assert(0 * len == 0 && 0 * (xm + 1) == 0) by (nonlinear_arith);
        if split_idx < p_end_idx {
            assert(xm / (s[split_idx as int] as int) <= v_cluster_limit);
        }
        assert(p_max < u64::MAX) by (nonlinear_arith)
            requires
                p_max * p_max <= xm,
                xm <= u64::MAX,
                p_max >= 1,
        ;
        if split_idx < p_end_idx {
            assert(xm / (s[split_idx as int] as int) == p_max);
            assert(reciprocals@[split_idx as int].divisor == s[split_idx as int]);
        }
        lemma_fundamental_div_mod(xm, p_max as int);
        assert(v_min >= p_max) by (nonlinear_arith)
            requires
                p_max * p_max <= xm,
                p_max > 0,
                xm == p_max * v_min + xm % (p_max as int),
                xm % (p_max as int) < p_max,
        ;
    }
    while v >= v_min && curr_p_high > split_idx
        invariant
            s == primes@,
            piv == model_of(pi_table),
            xm == x_div_m,
            len == s.len(),
            len <= 0x1000_0000_0000_0000,
            0 <= p_start_idx <= split_idx <= p_end_idx <= len,
            leaf_domain(pi_table, xm, s, reciprocals@, p_start_idx as int, p_end_idx as int),
            forall|j: int| p_start_idx <= j < split_idx ==> #[trigger] s[j] <= p_split_val,
            forall|j: int| split_idx <= j < p_end_idx ==> xm / (#[trigger] s[j] as int) == p_max,
            p_split_val == xm / (v_cluster_limit + 1),
            v_cluster_limit == p_max || split_idx == p_end_idx,
            v_min >= p_max,
            p_max < u64::MAX,
            sorted(s),
            (curr_p_high == p_end_idx && split_idx < p_end_idx && v == p_max) || curr_p_high == split_idx,
            curr_p_high == p_end_idx ==> sum == 0,
            curr_p_high == split_idx ==> sum == index_leaf_sum(
                xm,
                s,
                split_idx as int,
                p_end_idx as int,
                piv,
                1,
            ),
            -((p_end_idx - curr_p_high) * len) <= sum <= (p_end_idx - curr_p_high) * (xm + 1),
        decreases v,
    {
        let p_low_bound = x_div_m / (v + 1);
        let window = slice_subrange(primes, p_start_idx, curr_p_high);
        proof {
            assert forall|i: int, j: int| 0 <= i <= j < window@.len() implies #[trigger] window@[i]
                <= #[trigger] window@[j] by {
                assert(window@[i] == s[p_start_idx + i] && window@[j] == s[p_start_idx + j]);
            }
        }
        let curr_p_low = partition_point_le(window, p_low_bound) + p_start_idx;
        proof {
            // The grouped band is exactly [split_idx, p_end_idx).
            assert(v_cluster_limit == p_max);
            assert forall|j: int| p_start_idx <= j < curr_p_high implies (#[trigger] s[j] <= p_low_bound
                <==> j < split_idx) by {
                assert(s[j] == window@[j - p_start_idx]);
                if j >= split_idx {
                    let q = s[j] as int;
                    assert(reciprocals@[j].divisor == s[j]);
                    lemma_fundamental_div_mod(xm, q);
                    lemma_fundamental_div_mod(xm, v + 1);
                    assert(q > p_low_bound) by (nonlinear_arith)
                        requires
                            xm / q == v,
                            q > 0,
                            p_low_bound == xm / (v + 1),
                            xm == (v + 1) * (xm / (v + 1)) + xm % (v + 1),
                            0 <= xm % (v + 1),
                            xm == q * (xm / q) + xm % q,
                            xm % q < q,
                    ;
                }
            }
            if curr_p_low < split_idx {
                assert(window@[curr_p_low - p_start_idx] > p_low_bound);
                assert(s[curr_p_low as int] == window@[curr_p_low - p_start_idx]);
            }
            if curr_p_low > split_idx {
                assert(window@[split_idx - p_start_idx] <= p_low_bound);
                assert(s[split_idx as int] == window@[split_idx - p_start_idx]);
            }
        }
        let cluster_count = curr_p_high - curr_p_low;
        if cluster_count > 0 {
            assert(curr_p_low == split_idx);
            assert(reciprocals@[split_idx as int].divisor == s[split_idx as int]);
            assert(xm / (s[split_idx as int] as int) == p_max);
            let pi_v = PiTableOps::pi(pi_table, v);
            proof {
                lemma_shared_quotient_sum(xm, s, curr_p_low as int, curr_p_high as int, piv, v as int);
                lemma_index_sum_closed(curr_p_low as int, curr_p_high as int);
            }
            let first_pi_p = (curr_p_low + 1) as i128;
            let last_pi_p = curr_p_high as i128;
            let cnt = cluster_count as i128;
            proof {
                assert((first_pi_p + last_pi_p) * cnt <= 2 * len * len) by (nonlinear_arith)
                    requires
                        1 <= first_pi_p <= last_pi_p <= len,
                        0 <= cnt <= len,
                ;
                assert(2 * len * len <= 2 * 0x1000_0000_0000_0000 * 0x1000_0000_0000_0000) by (nonlinear_arith)
                    requires
                        0 <= len <= 0x1000_0000_0000_0000,
                ;
                assert((xm + 1) * len <= 0x1_0000_0000_0000_0000 * 0x1000_0000_0000_0000) by (nonlinear_arith)
                    requires
                        0 <= len <= 0x1000_0000_0000_0000,
                        0 <= xm < 0x1_0000_0000_0000_0000,
                ;
                assert((pi_v + 1) * cnt <= (xm + 1) * len) by (nonlinear_arith)
                    requires
                        0 <= pi_v <= xm,
                        0 <= cnt <= len,
                ;
                assert((xm + 1) * len <= len * (len + xm + 1)) by (nonlinear_arith)
                    requires
                        len >= 0,
                        xm >= 0,
                ;
                assert(2 * index_sum(curr_p_low as int, curr_p_high as int) == (first_pi_p + last_pi_p) * cnt);
                assert(0 <= index_sum(curr_p_low as int, curr_p_high as int) <= cnt * len) by (nonlinear_arith)
                    requires
                        2 * index_sum(curr_p_low as int, curr_p_high as int) == (first_pi_p + last_pi_p) * cnt,
                        1 <= first_pi_p <= last_pi_p <= len,
                        0 <= cnt,
                ;
                assert((pi_v + 1) * cnt - index_sum(curr_p_low as int, curr_p_high as int) <= cnt * (xm + 1))
                    by (nonlinear_arith)
                    requires
                        0 <= pi_v <= xm,
                        0 <= cnt,
                        0 <= index_sum(curr_p_low as int, curr_p_high as int),
                ;
                assert((pi_v + 1) * cnt - index_sum(curr_p_low as int, curr_p_high as int) >= -(cnt * len))
                    by (nonlinear_arith)
                    requires
                        0 <= pi_v,
                        0 <= cnt,
                        index_sum(curr_p_low as int, curr_p_high as int) <= cnt * len,
                ;
            }
            let sum_pi_p = (first_pi_p + last_pi_p) * cnt / 2;
            sum = sum + ((pi_v as i128 + 1) * cnt - sum_pi_p);
            curr_p_high = curr_p_low;
        }
        if v == 0 {
            break;
        }
        v -= 1;
    }
    // Individual leaves below the grouped band (all of them when the
    // descent did not start).
    let unclustered_end = curr_p_high;
    proof {
        if curr_p_high == p_end_idx {
            assert(index_leaf_sum(xm, s, p_end_idx as int, p_end_idx as int, piv, 1) == 0);
        }
        assert(sum == index_leaf_sum(xm, s, unclustered_end as int, p_end_idx as int, piv, 1));
    }
    proof {
        assert forall|k: int| p_start_idx <= k <= unclustered_end implies i64::MIN <= #[trigger] index_leaf_sum(
            xm,
            s,
            p_start_idx as int,
            k,
            piv,
            1,
        ) <= i64::MAX by {
            assert(p_start_idx <= k <= p_end_idx);
        }
    }
    let rest = leaves_one_by_one(x_div_m, p_start_idx, unclustered_end, primes, reciprocals, pi_table);
    proof {
        lemma_index_leaf_sum_split(xm, s, p_start_idx as int, unclustered_end as int, p_end_idx as int, piv, 1);
        assert(i64::MIN <= index_leaf_sum(xm, s, p_start_idx as int, p_end_idx as int, piv, 1) <= i64::MAX);
    }
    (sum + rest as i128) as i64
}

} // verus!
