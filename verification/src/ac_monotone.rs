//! AC leaves for one m with a forward-only prime cursor: above the cluster
//! threshold each prime is evaluated on its own; below it the primes that
//! share one quotient v are taken together in O(1).
use vstd::prelude::*;
use crate::leaf_sums::{
    ac_leaf_sum, index_leaf_sum, index_sum, leaf_prefixes_fit, prime_list_from, lemma_index_leaf_sum_is_leaf_sum,
    lemma_index_sum_closed,
};
use crate::magic_reciprocal::FastDiv64;
use crate::primality::{
    count_le, is_prime, prime_count, prime_list, sorted, lemma_count_le_partition, lemma_prime_count_monotone,
    lemma_prime_list_count,
};
use crate::sampled_index::partition_point_le;
use crate::segmented_pi::{SegmentedPiTable, CompactPiTable};
use crate::intmath::{min_u64, min_spec};
use vstd::slice::slice_subrange;
use vstd::arithmetic::div_mod::{lemma_div_is_ordered_by_denominator, lemma_fundamental_div_mod};

verus! {

/// A table that answers pi on some set of points.
pub trait PiTableOps {
    /// The table answers at `v`.
    spec fn answers(&self, v: int) -> bool;

    /// The count the table gives at `v`.
    spec fn pi_model(&self, v: int) -> int;

    fn pi(&self, x: u64) -> (r: u64)
        requires
            self.answers(x as int),
        ensures
            r as int == self.pi_model(x as int),
    ;
}

impl PiTableOps for SegmentedPiTable {
    open spec fn answers(&self, v: int) -> bool {
        self.valid() && self.low <= v
    }

    open spec fn pi_model(&self, v: int) -> int {
        count_le(self.source@, min_spec(v, self.high as int)) as int
    }

    fn pi(&self, x: u64) -> (r: u64) {
        SegmentedPiTable::pi(self, x)
    }
}

impl PiTableOps for CompactPiTable {
    open spec fn answers(&self, v: int) -> bool {
        self.valid() && self.low <= v
    }

    open spec fn pi_model(&self, v: int) -> int {
        count_le(self.source@, min_spec(v, self.high as int)) as int
    }

    fn pi(&self, x: u64) -> (r: u64) {
        CompactPiTable::pi(self, x)
    }
}

/// The table's counts as a spec closure.
pub open spec fn model_of<T: PiTableOps>(t: &T) -> spec_fn(int) -> int {
    |v: int| t.pi_model(v)
}

/// Every index in [lo, hi) has a prepared divisor for its prime, and the
/// table answers at its quotient with a count in [0, xm].
pub open spec fn leaf_domain<T: PiTableOps>(
    t: &T,
    xm: int,
    s: Seq<u64>,
    rec: Seq<FastDiv64>,
    lo: int,
    hi: int,
) -> bool {
    &&& hi <= s.len()
    &&& hi <= rec.len()
    &&& forall|i: int|
        lo <= i < hi ==> {
            &&& (#[trigger] rec[i]).divisor == s[i]
            &&& s[i] > 0
            &&& rec[i].max_n >= xm
            &&& t.answers(xm / (s[i] as int))
            &&& 0 <= t.pi_model(xm / (s[i] as int)) <= xm
        }
}

/// Primes at indices [a, b) all have quotient v: their leaves sum to
/// (pi(v) + 1) * (b - a) - ((a + 1) + ... + b).
proof fn lemma_cluster_sum(xm: int, s: Seq<u64>, a: int, b: int, piv: spec_fn(int) -> int, v: int)
    requires
        0 <= a <= b <= s.len(),
        forall|j: int| a <= j < b ==> xm / (#[trigger] s[j] as int) == v,
    ensures
        index_leaf_sum(xm, s, a, b, piv, 1) == (piv(v) + 1) * (b - a) - index_sum(a, b),
    decreases b - a,
{
    if a < b {
        lemma_cluster_sum(xm, s, a, b - 1, piv, v);
        assert(xm / (s[b - 1] as int) == v);
        assert((piv(v) + 1) * (b - a) == (piv(v) + 1) * (b - 1 - a) + piv(v) + 1) by (nonlinear_arith);
    } else {
        assert((piv(v) + 1) * (b - a) == 0) by (nonlinear_arith)
            requires
                a == b,
        ;
    }
}

/// One leaf: the running sum after index `i` is the running sum before it
/// plus piv(xm / s[i]) - i.
proof fn lemma_leaf_step(xm: int, s: Seq<u64>, lo: int, i: int, piv: spec_fn(int) -> int)
    requires
        lo <= i,
    ensures
        index_leaf_sum(xm, s, lo, i + 1, piv, 1) == index_leaf_sum(xm, s, lo, i, piv, 1) + piv(
            xm / (s[i] as int),
        ) - i,
{
}

/// AC leaves of one m: the sum over the primes p_min_bound < p <= p_max
/// (indices [st, en) of `primes`) of pi(x_div_m / p) - (index + 1) + 1,
/// with pi read from `pi_table`.
pub fn compute_ac_monotone_m<T: PiTableOps>(
    x_div_m: u64,
    p_min_bound: u64,
    p_max: u64,
    primes: &[u64],
    reciprocals: &[FastDiv64],
    pi_table: &T,
) -> (r: i64)
    requires
        sorted(primes@),
        primes@.len() <= 0x1000_0000_0000_0000,
        p_min_bound < p_max ==> leaf_domain(
            pi_table,
            x_div_m as int,
            primes@,
            reciprocals@,
            count_le(primes@, p_min_bound as int) as int,
            count_le(primes@, p_max as int) as int,
        ),
        p_min_bound < p_max ==> leaf_prefixes_fit(
            x_div_m as int,
            primes@,
            count_le(primes@, p_min_bound as int) as int,
            count_le(primes@, p_max as int) as int,
            model_of(pi_table),
        ),
        // The clustered descent divides by the quotient of the last prime.
        p_min_bound < p_max && count_le(primes@, p_max as int) >= count_le(primes@, p_min_bound as int)
            + 64 ==> primes@[count_le(primes@, p_max as int) - 1] <= x_div_m,
    ensures
        r == if p_min_bound >= p_max {
            0
        } else {
            index_leaf_sum(
                x_div_m as int,
                primes@,
                count_le(primes@, p_min_bound as int) as int,
                count_le(primes@, p_max as int) as int,
                model_of(pi_table),
                1,
            )
        },
{
    if p_min_bound >= p_max {
        return 0;
    }
    let ghost s = primes@;
    let ghost piv = model_of(pi_table);
    let ghost xm = x_div_m as int;
    let ghost len = s.len() as int;
    let p_start_idx = partition_point_le(primes, p_min_bound);
    let p_end_idx = partition_point_le(primes, p_max);
    if p_start_idx >= p_end_idx {
        return 0;
    }
    let count = p_end_idx - p_start_idx;
    if count < 64 {
        let mut leaf_acc: i64 = 0;
        let mut idx = p_start_idx;
        while idx < p_end_idx
            invariant
                s == primes@,
                piv == model_of(pi_table),
                xm == x_div_m,
                len == s.len(),
                0 <= p_start_idx <= idx <= p_end_idx <= len,
                leaf_domain(pi_table, xm, s, reciprocals@, p_start_idx as int, p_end_idx as int),
                leaf_prefixes_fit(xm, s, p_start_idx as int, p_end_idx as int, piv),
                leaf_acc == index_leaf_sum(xm, s, p_start_idx as int, idx as int, piv, 1),
            decreases p_end_idx - idx,
        {
            let v = reciprocals[idx].div(x_div_m);
            let pi_v = pi_table.pi(v);
            proof {
                lemma_leaf_step(xm, s, p_start_idx as int, idx as int, piv);
                assert(i64::MIN <= index_leaf_sum(xm, s, p_start_idx as int, idx + 1, piv, 1) <= i64::MAX);
            }
            let pi_p = (idx + 1) as i128;
            leaf_acc = (leaf_acc as i128 + (pi_v as i128) - pi_p + 1) as i64;
            idx += 1;
        }
        return leaf_acc;
    }
    let mut sum: i64 = 0;
    // Below the threshold several primes share one quotient v.
    let v_threshold = min_u64(256, p_max);
    let p_cluster_limit = x_div_m / (v_threshold + 1);
    let active = slice_subrange(primes, p_start_idx, p_end_idx);
    proof {
        assert forall|i: int, j: int| 0 <= i <= j < active@.len() implies #[trigger] active@[i]
            <= #[trigger] active@[j] by {
            assert(active@[i] == s[p_start_idx + i] && active@[j] == s[p_start_idx + j]);
        }
    }
    let split_idx = partition_point_le(active, p_cluster_limit) + p_start_idx;
    // Part 1: one leaf per prime.
    let mut idx = p_start_idx;
    while idx < split_idx
        invariant
            s == primes@,
            piv == model_of(pi_table),
            xm == x_div_m,
            len == s.len(),
            0 <= p_start_idx <= idx <= split_idx <= p_end_idx <= len,
            leaf_domain(pi_table, xm, s, reciprocals@, p_start_idx as int, p_end_idx as int),
            leaf_prefixes_fit(xm, s, p_start_idx as int, p_end_idx as int, piv),
            sum == index_leaf_sum(xm, s, p_start_idx as int, idx as int, piv, 1),
        decreases split_idx - idx,
    {
        let v = reciprocals[idx].div(x_div_m);
        let pi_v = pi_table.pi(v);
        proof {
            lemma_leaf_step(xm, s, p_start_idx as int, idx as int, piv);
            assert(i64::MIN <= index_leaf_sum(xm, s, p_start_idx as int, idx + 1, piv, 1) <= i64::MAX);
        }
        let pi_p = (idx + 1) as i128;
        sum = (sum as i128 + pi_v as i128 - pi_p + 1) as i64;
        idx += 1;
    }
    // Part 2: the primes of one quotient v at a time, v descending, the
    // cursor only moving forward.
    if split_idx < p_end_idx {
        let mut cursor = split_idx;
        let mut v = x_div_m / primes[split_idx];
        let last = primes[p_end_idx - 1];
        proof {
            assert(last <= x_div_m);
            assert(last > 0);
            lemma_div_is_ordered_by_denominator(xm, 1, last as int);
        }
        let v_min = x_div_m / last;
        proof {
            assert(s[split_idx as int] <= last);
            assert(reciprocals@[split_idx as int].divisor == s[split_idx as int]);
            lemma_div_is_ordered_by_denominator(xm, s[split_idx as int] as int, last as int);
            lemma_fundamental_div_mod(xm, last as int);
            assert(v_min >= 1) by (nonlinear_arith)
                requires
                    xm == last * v_min + xm % (last as int),
                    xm % (last as int) < last,
                    last <= xm,
            ;
        }
        while v >= v_min && cursor < p_end_idx
            invariant
                s == primes@,
                piv == model_of(pi_table),
                xm == x_div_m,
                len == s.len(),
                len <= 0x1000_0000_0000_0000,
                0 <= p_start_idx <= split_idx <= cursor <= p_end_idx <= len,
                cursor < p_end_idx ==> xm / (s[cursor as int] as int) >= v_min,
                leaf_domain(pi_table, xm, s, reciprocals@, p_start_idx as int, p_end_idx as int),
                leaf_prefixes_fit(xm, s, p_start_idx as int, p_end_idx as int, piv),
                sorted(s),
                last == s[p_end_idx - 1],
                v_min == xm / (last as int),
                v_min >= 1,
                cursor < p_end_idx ==> xm / (s[cursor as int] as int) <= v,
                sum == index_leaf_sum(xm, s, p_start_idx as int, cursor as int, piv, 1),
            ensures
                cursor == p_end_idx,
                sum == index_leaf_sum(xm, s, p_start_idx as int, cursor as int, piv, 1),
            decreases v,
        {
            let p_bound = x_div_m / v;
            let cluster_start = cursor;
            while cursor < p_end_idx && primes[cursor] <= p_bound
                invariant
                    s == primes@,
                    sorted(s),
                    cluster_start <= cursor <= p_end_idx <= len,
                    v >= 1,
                    p_bound == xm / (v as int),
                    leaf_domain(pi_table, xm, s, reciprocals@, p_start_idx as int, p_end_idx as int),
                    p_start_idx <= cluster_start,
                    cluster_start < p_end_idx ==> xm / (s[cluster_start as int] as int) <= v,
                    forall|j: int| cluster_start <= j < cursor ==> xm / (#[trigger] s[j] as int) == v,
                decreases p_end_idx - cursor,
            {
                proof {
                    let q = s[cursor as int] as int;
                    assert(reciprocals@[cursor as int].divisor == s[cursor as int]);
                    assert(reciprocals@[cluster_start as int].divisor == s[cluster_start as int]);
                    assert(s[cluster_start as int] <= s[cursor as int]);
                    lemma_div_is_ordered_by_denominator(xm, s[cluster_start as int] as int, q);
                    lemma_fundamental_div_mod(xm, v as int);
                    lemma_fundamental_div_mod(xm, q);
                    assert(xm / q >= v) by (nonlinear_arith)
                        requires
                            q <= xm / (v as int),
                            q > 0,
                            v >= 1,
                            xm == v * (xm / (v as int)) + xm % (v as int),
                            0 <= xm % (v as int),
                            xm == q * (xm / q) + xm % q,
                            xm % q < q,
                    ;
                }
                cursor += 1;
            }
            let cluster_count = cursor - cluster_start;
            if cluster_count > 0 {
                assert(xm / (s[cluster_start as int] as int) == v);
                assert(reciprocals@[cluster_start as int].divisor == s[cluster_start as int]);
                let pi_v = pi_table.pi(v);
                proof {
                    lemma_cluster_sum(xm, s, cluster_start as int, cursor as int, piv, v as int);
                    lemma_index_sum_closed(cluster_start as int, cursor as int);
                    crate::leaf_sums::lemma_index_leaf_sum_split(
                        xm,
                        s,
                        p_start_idx as int,
                        cluster_start as int,
                        cursor as int,
                        piv,
                        1,
                    );
                    assert(i64::MIN <= index_leaf_sum(xm, s, p_start_idx as int, cursor as int, piv, 1) <= i64::MAX);
                }
                let first_p = (cluster_start + 1) as i128;
                let last_p = cursor as i128;
                let cnt = cluster_count as i128;
                proof {
                    assert((first_p + last_p) * cnt <= 0x2000_0000_0000_0000 * 0x1000_0000_0000_0000) by (nonlinear_arith)
                        requires
                            1 <= first_p <= last_p <= 0x1000_0000_0000_0000,
                            0 <= cnt <= 0x1000_0000_0000_0000,
                    ;
                    assert((pi_v + 1) * cnt <= 0x1_0000_0000_0000_0000 * 0x1000_0000_0000_0000) by (nonlinear_arith)
                        requires
                            0 <= pi_v < 0x1_0000_0000_0000_0000,
                            0 <= cnt <= 0x1000_0000_0000_0000,
                    ;
                    assert(2 * index_sum(cluster_start as int, cursor as int) == (first_p + last_p) * cnt);
                }
                let sum_pi_p = (first_p + last_p) * cnt / 2;
                sum = (sum as i128 + ((pi_v as i128 + 1) * cnt - sum_pi_p)) as i64;
            }
            proof {
                if cursor < p_end_idx {
                    let q = s[cursor as int] as int;
                    assert(reciprocals@[cursor as int].divisor == s[cursor as int]);
                    lemma_fundamental_div_mod(xm, v as int);
                    lemma_fundamental_div_mod(xm, q);
                    assert(xm / q < v) by (nonlinear_arith)
                        requires
                            q > xm / (v as int),
                            q > 0,
                            v >= 1,
                            xm == v * (xm / (v as int)) + xm % (v as int),
                            xm % (v as int) < v,
                            xm == q * (xm / q) + xm % q,
                            0 <= xm % q,
                    ;
                    assert(s[cursor as int] <= last);
                    lemma_div_is_ordered_by_denominator(xm, s[cursor as int] as int, last as int);
                }
            }
            if v == 0 {
                break;
            }
            v -= 1;
        }
    }
    proof {
        lemma_count_le_partition(s, p_min_bound as int, p_start_idx as int);
        lemma_count_le_partition(s, p_max as int, p_end_idx as int);
    }
    sum
}

/// Over a list of the primes in order that reaches p_max, the indexed AC
/// leaves of one m are the leaf sum over the primes p_min < p <= p_max of
/// pi(x_div_m / p) - pi(p) + 1.
pub proof fn lemma_ac_leaves_are_prime_sum(
    x_div_m: int,
    p_min: int,
    p_max: int,
    primes: Seq<u64>,
    piv: spec_fn(int) -> int,
)
    requires
        prime_list(primes),
        0 <= p_min <= p_max,
        prime_count(p_max) <= primes.len(),
    ensures
        index_leaf_sum(
            x_div_m,
            primes,
            count_le(primes, p_min) as int,
            count_le(primes, p_max) as int,
            piv,
            1,
        ) == ac_leaf_sum(x_div_m, p_min, p_max, piv),
{
    lemma_prime_count_monotone(p_min, p_max);
    lemma_prime_list_count(primes, p_min);
    lemma_prime_list_count(primes, p_max);
    assert(prime_list_from(primes, 0, 1)) by {
        assert forall|i: int| 0 <= i < primes.len() implies is_prime(#[trigger] primes[i] as int)
            && prime_count(primes[i] as int) == i + 1 by {}
    }
    lemma_index_leaf_sum_is_leaf_sum(x_div_m, primes, 0, 1, p_min, p_max, piv);
}

} // verus!
