//! B(x, y) by a monotone walk over the primes with pi(x / p) read from a
//! dense prime-count cache.
use vstd::prelude::*;
use crate::b_term::{b_leaf_sum, b_sum_fits, list_pi};
use crate::delta_prime_stream::DeltaPrimeStream;
use crate::leaf_sums::{
    table_or_slice_pi, quotient_pi_sum, lemma_index_leaf_sum_parts, lemma_index_leaf_sum_piv_congruent,
    lemma_index_sum_closed, lemma_index_sum_shift, lemma_quotient_pi_sum_partial,
};
use crate::picache::PiCache;
use crate::primality::{
    count_le, is_prime, prime_count, prime_list, sorted, strip_sentinel, is_partition_point, lemma_count_le_bound,
    lemma_count_le_partition, lemma_count_le_partition_converse, lemma_prime_count_monotone, lemma_prime_list_count,
    lemma_prime_list_sorted,
};
use crate::roots::{isqrt, floor_sqrt};
use crate::sampled_index::partition_point_le;
use vstd::arithmetic::div_mod::lemma_div_is_ordered_by_denominator;

verus! {

/// Inputs on which the walk reads the cache in range and its i64 sums are exact.
pub open spec fn walker_domain(x: int, y: int, primes: Seq<u64>, cache_limit: int, source: Seq<u64>) -> bool {
    &&& y < floor_sqrt(x) ==> x / (y + 1) <= cache_limit
    &&& primes.len() <= 0x1000_0000_0000_0000
    &&& b_sum_fits(x, y, primes, list_pi(source))
}

/// B(x, y) = sum over the listed primes y < p <= sqrt(x) of
/// pi(x / p) - pi(p) + 1, where `primes[i]` is the `(i + 1)`-th prime.
pub fn compute_b_monotone_walker(x: u64, y: u64, primes: &[u64], picache: &PiCache) -> (r: i64)
    requires
        picache.valid(),
        sorted(primes@),
        walker_domain(x as int, y as int, primes@, picache.limit as int, picache.source@),
    ensures
        r == b_leaf_sum(x as int, y as int, primes@, list_pi(picache.source@)),
{
    let sqrt_x = isqrt(x);
    if y >= sqrt_x {
        return 0;
    }
    let p_start = partition_point_le(primes, y);
    let p_end = partition_point_le(primes, sqrt_x);
    if p_start >= p_end {
        return 0;
    }
    let ghost len = primes@.len() as int;
    let ghost piv = list_pi(picache.source@);
    proof {
        assert forall|i: int| p_start <= i < primes@.len() implies #[trigger] primes@[i] > y by {
            crate::primality::lemma_count_le_partition_converse(primes@, y as int, i);
        }
        assert forall|v: int| #[trigger] piv(v) >= 0 by {}
        lemma_count_le_bound(primes@, sqrt_x as int);
    }
    let ghost qtotal = quotient_pi_sum(x as int, primes@, p_start as int, p_end as int, piv);
    let mut sum_pi_quotients: i64 = 0;
    let mut idx = p_start;
    while idx < p_end
        invariant
            picache.valid(),
            sorted(primes@),
            len == primes@.len(),
            len <= 0x1000_0000_0000_0000,
            forall|v: int| #[trigger] piv(v) >= 0,
            qtotal == quotient_pi_sum(x as int, primes@, p_start as int, p_end as int, piv),
            qtotal <= i64::MAX,
            piv == list_pi(picache.source@),
            0 <= p_start <= idx <= p_end <= len,
            (x as int) / (y + 1) <= picache.limit,
            forall|i: int| p_start <= i < primes@.len() ==> #[trigger] primes@[i] > y,
            sum_pi_quotients == quotient_pi_sum(x as int, primes@, p_start as int, idx as int, piv),
        decreases p_end - idx,
    {
        let p = primes[idx];
        let v = x / p;
        proof {
            lemma_div_is_ordered_by_denominator(x as int, y + 1, p as int);
            lemma_quotient_pi_sum_partial(x as int, primes@, p_start as int, idx + 1, p_end as int, piv);
            lemma_quotient_pi_sum_partial(x as int, primes@, p_start as int, idx as int, p_end as int, piv);
            assert(quotient_pi_sum(x as int, primes@, p_start as int, idx + 1, piv) == quotient_pi_sum(
                x as int,
                primes@,
                p_start as int,
                idx as int,
                piv,
            ) + piv(x as int / primes@[idx as int] as int));
        }
        sum_pi_quotients = sum_pi_quotients + picache.pi(v) as i64;
        idx += 1;
    }
    // sum pi(x/p) - sum pi(p) + count, with pi(p) = i + 1.
    let a = p_start as i128 + 1;
    let b = p_end as i128;
    let n = b - a + 1;
    proof {
        lemma_index_sum_closed(a - 1, b as int);
        lemma_index_leaf_sum_parts(x as int, primes@, p_start as int, p_end as int, piv, 1);
        lemma_index_sum_shift(p_start as int, p_end as int);
        assert((a + b) * n <= 0x4000_0000_0000_0000_0000_0000_0000_0000) by (nonlinear_arith)
            requires
                1 <= a <= b <= 0x1000_0000_0000_0000,
                n == b - a + 1,
        ;
    }
    let sum_pi_p = (a + b) * n / 2;
    let total = sum_pi_quotients as i128 - sum_pi_p + n;
    total as i64
}

/// The walk of [`compute_b_monotone_walker`] over a prime stream read by a
/// forward cursor, reusing pi(v) while the quotient v does not move.
pub fn compute_b_monotone_walker_delta(x: u64, y: u64, stream: &DeltaPrimeStream, picache: &PiCache) -> (r: i64)
    requires
        picache.valid(),
        sorted(stream.primes@),
        stream.primes@.len() <= usize::MAX / 2,
        walker_domain(x as int, y as int, stream.primes@, picache.limit as int, picache.source@),
    ensures
        r == b_leaf_sum(x as int, y as int, stream.primes@, list_pi(picache.source@)),
{
    let sqrt_x = isqrt(x);
    if y >= sqrt_x {
        return 0;
    }
    let p_start = binary_search_stream(stream, y);
    let p_end = binary_search_stream(stream, sqrt_x);
    if p_start >= p_end {
        return 0;
    }
    let ghost primes = stream.primes@;
    let ghost len = primes.len() as int;
    let ghost piv = list_pi(picache.source@);
    proof {
        assert forall|i: int| p_start <= i < primes.len() implies #[trigger] primes[i] > y by {
            crate::primality::lemma_count_le_partition_converse(primes, y as int, i);
        }
        assert forall|v: int| #[trigger] piv(v) >= 0 by {}
        lemma_count_le_bound(primes, sqrt_x as int);
    }
    let ghost qtotal = quotient_pi_sum(x as int, primes, p_start as int, p_end as int, piv);

    let mut cursor = stream.cursor_from(p_start);
    let mut sum_pi_quotients: i64 = 0;
    let first = cursor.current();
    let mut last_v = x / first;
    proof {
        lemma_div_is_ordered_by_denominator(x as int, y + 1, first as int);
    }
    let mut last_pi = picache.pi(last_v);
    let mut k = p_start;
    while k < p_end
        invariant
            picache.valid(),
            sorted(primes),
            primes == stream.primes@,
            cursor.stream == stream,
            cursor.pos == k,
            len == primes.len(),
            len <= 0x1000_0000_0000_0000,
            forall|v: int| #[trigger] piv(v) >= 0,
            qtotal == quotient_pi_sum(x as int, primes, p_start as int, p_end as int, piv),
            qtotal <= i64::MAX,
            piv == list_pi(picache.source@),
            0 <= p_start <= k <= p_end <= len,
            (x as int) / (y + 1) <= picache.limit,
            last_v <= picache.limit,
            last_pi == count_le(picache.source@, last_v as int),
            forall|i: int| p_start <= i < primes.len() ==> #[trigger] primes[i] > y,
            sum_pi_quotients == quotient_pi_sum(x as int, primes, p_start as int, k as int, piv),
        decreases p_end - k,
    {
        let p = cursor.current();
        let v = x / p;
        proof {
            lemma_div_is_ordered_by_denominator(x as int, y + 1, p as int);
        }
        if last_v >= v && last_v - v < 120 {
            let delta = last_v - v;
            if delta > 0 {
                last_pi = picache.pi(v);
                last_v = v;
            }
        } else {
            last_pi = picache.pi(v);
            last_v = v;
        }
        proof {
            lemma_quotient_pi_sum_partial(x as int, primes, p_start as int, k + 1, p_end as int, piv);
            lemma_quotient_pi_sum_partial(x as int, primes, p_start as int, k as int, p_end as int, piv);
            assert(quotient_pi_sum(x as int, primes, p_start as int, k + 1, piv) == quotient_pi_sum(
                x as int,
                primes,
                p_start as int,
                k as int,
                piv,
            ) + piv(x as int / primes[k as int] as int));
        }
        sum_pi_quotients = sum_pi_quotients + last_pi as i64;
        cursor.next_prime();
        k += 1;
    }
    // sum pi(x/p) - sum pi(p) + count, with pi(p) = i + 1.
    let a = p_start as i128 + 1;
    let b = p_end as i128;
    let n = b - a + 1;
    proof {
        lemma_index_sum_closed(a - 1, b as int);
        lemma_index_leaf_sum_parts(x as int, primes, p_start as int, p_end as int, piv, 1);
        lemma_index_sum_shift(p_start as int, p_end as int);
        assert((a + b) * n <= 0x4000_0000_0000_0000_0000_0000_0000_0000) by (nonlinear_arith)
            requires
                1 <= a <= b <= 0x1000_0000_0000_0000,
                n == b - a + 1,
        ;
    }
    let sum_pi_p = (a + b) * n / 2;
    let total = sum_pi_quotients as i128 - sum_pi_p + n;
    total as i64
}

/// The walker's B is the monotone B: over a list of the primes in order,
/// with a cache list of the primes that reaches x / (y + 1) and a table or
/// list that does too, pi(x / p) read from the cache and pi(x / p) read
/// from the table or list agree, and so do the two B sums (the list has no
/// leading 0, so stripping one leaves it as it is).
pub proof fn lemma_walker_matches_monotone(x: int, y: int, s: Seq<u64>, source: Seq<u64>, max_y: int)
    requires
        x >= 0,
        y >= 0,
        prime_list(s),
        prime_list(source),
        prime_count(x / (y + 1)) <= source.len(),
        x / (y + 1) <= max_y || prime_count(x / (y + 1)) <= s.len(),
    ensures
        strip_sentinel(s) == s,
        b_leaf_sum(x, y, s, list_pi(source)) == b_leaf_sum(x, y, s, table_or_slice_pi(max_y, s)),
{
    if s.len() >= 1 {
        assert(is_prime(s[0] as int));
    }
    let sq = floor_sqrt(x);
    if y < sq {
        lemma_prime_list_sorted(s);
        let lo = count_le(s, y) as int;
        let hi = count_le(s, sq) as int;
        assert forall|i: int| lo <= i < hi implies list_pi(source)(x / (#[trigger] s[i] as int)) == table_or_slice_pi(
            max_y,
            s,
        )(x / (s[i] as int)) by {
            lemma_count_le_bound(s, sq);
            lemma_count_le_partition_converse(s, y, i);
            let v = x / (s[i] as int);
            vstd::arithmetic::div_mod::lemma_div_is_ordered_by_denominator(x, y + 1, s[i] as int);
            lemma_prime_count_monotone(v, x / (y + 1));
            lemma_prime_list_count(source, v);
            if v > max_y {
                lemma_prime_list_count(s, v);
            }
        }
        lemma_index_leaf_sum_piv_congruent(x, s, lo, hi, list_pi(source), table_or_slice_pi(max_y, s), 1);
    }
}

/// Number of primes of the stream that are `<= target`.
pub fn binary_search_stream(stream: &DeltaPrimeStream, target: u64) -> (r: usize)
    requires
        sorted(stream.primes@),
        stream.primes@.len() <= usize::MAX / 2,
    ensures
        r == count_le(stream.primes@, target as int),
        is_partition_point(stream.primes@, target as int, r as int),
{
    let mut low: usize = 0;
    let mut high = stream.total_primes();
    while low < high
        invariant
            sorted(stream.primes@),
            high <= stream.primes@.len() <= usize::MAX / 2,
            low <= high,
            forall|i: int| 0 <= i < low ==> #[trigger] stream.primes@[i] as int <= target,
            forall|i: int| high <= i < stream.primes@.len() ==> #[trigger] stream.primes@[i] as int > target,
        decreases high - low,
    {
        let mid = (low + high) / 2;
        if stream.get(mid) <= target {
            assert forall|i: int| 0 <= i <= mid implies #[trigger] stream.primes@[i] as int <= target by {
                assert(stream.primes@[i] <= stream.primes@[mid as int]);
            }
            low = mid + 1;
        } else {
            assert forall|i: int| mid <= i < stream.primes@.len() implies #[trigger] stream.primes@[i] as int
                > target by {
                assert(stream.primes@[mid as int] <= stream.primes@[i]);
            }
            high = mid;
        }
    }
    proof {
        lemma_count_le_partition(stream.primes@, target as int, low as int);
    }
    low
}

/// One worker's share of the walk: the sum of pi(x / p) over the primes p
/// of `slice`, with pi read from the cache.
pub fn quotient_cache_sum(x: u64, slice: &[u64], picache: &PiCache) -> (r: i64)
    requires
        picache.valid(),
        forall|i: int| 0 <= i < slice@.len() ==> #[trigger] slice@[i] > 0 && x / slice@[i] <= picache.limit,
        quotient_pi_sum(x as int, slice@, 0, slice@.len() as int, list_pi(picache.source@)) <= i64::MAX,
    ensures
        r == quotient_pi_sum(x as int, slice@, 0, slice@.len() as int, list_pi(picache.source@)),
{
    let ghost piv = list_pi(picache.source@);
    let ghost total = quotient_pi_sum(x as int, slice@, 0, slice@.len() as int, piv);
    proof {
        assert forall|v: int| #[trigger] piv(v) >= 0 by {}
    }
    let mut sum: i64 = 0;
    let mut i: usize = 0;
    while i < slice.len()
        invariant
            picache.valid(),
            piv == list_pi(picache.source@),
            forall|v: int| #[trigger] piv(v) >= 0,
            total == quotient_pi_sum(x as int, slice@, 0, slice@.len() as int, piv),
            total <= i64::MAX,
            forall|k: int| 0 <= k < slice@.len() ==> #[trigger] slice@[k] > 0 && x / slice@[k] <= picache.limit,
            i <= slice@.len(),
            sum == quotient_pi_sum(x as int, slice@, 0, i as int, piv),
        decreases slice@.len() - i,
    {
        let p = slice[i];
        let v = x / p;
        proof {
            lemma_quotient_pi_sum_partial(x as int, slice@, 0, i + 1, slice@.len() as int, piv);
            lemma_quotient_pi_sum_partial(x as int, slice@, 0, i as int, slice@.len() as int, piv);
            assert(quotient_pi_sum(x as int, slice@, 0, i + 1, piv) == quotient_pi_sum(
                x as int,
                slice@,
                0,
                i as int,
                piv,
            ) + piv(x as int / slice@[i as int] as int));
        }
        sum = sum + picache.pi(v) as i64;
        i += 1;
    }
    sum
}

} // verus!
