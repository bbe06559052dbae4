//! The B term of Gourdon's decomposition,
//! B(x, y) = sum over primes y < p <= sqrt(x) of pi(x / p) - pi(p) + 1,
//! with the divisions streamed through a block of prepared reciprocals.
use vstd::prelude::*;
use crate::leaf_sums::{
    ac_leaf_sum, index_leaf_sum, index_sum, prime_list_from, quotient_pi_sum, table_or_slice_pi,
    lemma_quotient_pi_sum_prepend, lemma_quotient_sum_is_prime_sum, quotient_term, prime_sum,
    lemma_index_leaf_sum_is_leaf_sum, lemma_index_leaf_sum_parts, lemma_index_sum_closed,
    lemma_quotient_pi_sum_partial, lemma_index_sum_shift,
};
use crate::magic_reciprocal::FastDiv64;
use crate::pi_table::PiTable;
use crate::primality::{
    count_le, is_prime, prime_count, prime_list, sentinel_prime_list, lemma_prime_list_count, sorted, strip_sentinel, is_partition_point,
    lemma_count_le_bound, lemma_partition_exists, lemma_prime_count_monotone, lemma_prime_list_partition,
    lemma_prime_list_sorted, lemma_prime_count_bound, lemma_count_le_partition,
};
use crate::roots::{isqrt, floor_sqrt};
use crate::sampled_index::{SampledPrimeIndex, strip_sentinel_slice, partition_point_le, lemma_sentinel_count};
use crate::intmath::min_usize;
use crate::threshold_count::{pi_offset_sum, sum_pi_from, threshold_in_range, lemma_pi_offset_sum_bound};
use vstd::slice::slice_subrange;
use vstd::arithmetic::div_mod::lemma_div_is_ordered_by_denominator;

verus! {

/// Number of reciprocals prepared per block.
pub const RECIPROCAL_BLOCK_SIZE: usize = 2048;

/// A block of prepared divisors refilled for consecutive runs of primes.
pub struct StreamingReciprocalBuffer {
    pub table: Vec<FastDiv64>,
}

impl StreamingReciprocalBuffer {
    /// A block of RECIPROCAL_BLOCK_SIZE unprepared entries.
    pub fn new() -> (b: Self)
        ensures
            b.table@.len() == RECIPROCAL_BLOCK_SIZE,
            forall|i: int| 0 <= i < RECIPROCAL_BLOCK_SIZE ==> (#[trigger] b.table@[i]).divisor == 0
                && b.table@[i].max_n == 0,
    {
        let mut table: Vec<FastDiv64> = Vec::new();
        let mut i: usize = 0;
        while i < RECIPROCAL_BLOCK_SIZE
            invariant
                i <= RECIPROCAL_BLOCK_SIZE,
                table@.len() == i,
                forall|j: int| 0 <= j < i ==> (#[trigger] table@[j]).divisor == 0 && table@[j].max_n == 0,
            decreases RECIPROCAL_BLOCK_SIZE - i,
        {
            table.push(FastDiv64::new(0, 0));
            i += 1;
        }
        StreamingReciprocalBuffer { table }
    }

    /// Prepares division by the first RECIPROCAL_BLOCK_SIZE entries of
    /// `primes_slice` for numerators up to `max_x`; later entries stay.
    pub fn fill_block(&mut self, primes_slice: &[u64], max_x: u64)
        requires
            old(self).table@.len() == RECIPROCAL_BLOCK_SIZE,
        ensures
            final(self).table@.len() == RECIPROCAL_BLOCK_SIZE,
            forall|i: int|
                0 <= i < primes_slice@.len() && i < RECIPROCAL_BLOCK_SIZE ==> (#[trigger] final(self).table@[i]).divisor == primes_slice@[i] && final(self).table@[i].max_n == max_x,
            forall|i: int|
                primes_slice@.len() <= i < RECIPROCAL_BLOCK_SIZE ==> #[trigger] final(self).table@[i]
                    == old(self).table@[i],
    {
        let len = min_usize(primes_slice.len(), RECIPROCAL_BLOCK_SIZE);
        let mut i: usize = 0;
        while i < len
            invariant
                len <= primes_slice@.len(),
                len <= RECIPROCAL_BLOCK_SIZE,
                i <= len,
                self.table@.len() == RECIPROCAL_BLOCK_SIZE,
                forall|j: int|
                    0 <= j < i ==> (#[trigger] self.table@[j]).divisor == primes_slice@[j]
                        && self.table@[j].max_n == max_x,
                forall|j: int| i <= j < RECIPROCAL_BLOCK_SIZE ==> #[trigger] self.table@[j] == old(self).table@[j],
            decreases len - i,
        {
            self.table.set(i, FastDiv64::new(primes_slice[i], max_x));
            i += 1;
        }
    }
}

/// pi as a spec closure.
pub open spec fn exact_pi() -> spec_fn(int) -> int {
    |v: int| prime_count(v) as int
}

/// sum over the primes y < p <= sqrt(x) of pi(x / p), with the primes read
/// from `primes[1..]` (entry 0 is a sentinel).
pub open spec fn b_quotient_sum(x: int, y: int, primes: Seq<u64>) -> int {
    let tail = primes.subrange(1, primes.len() as int);
    let sq = floor_sqrt(x);
    if x < 4 || y >= sq {
        0
    } else {
        quotient_pi_sum(x, primes, 1 + count_le(tail, y) as int, 1 + count_le(tail, sq) as int, exact_pi())
    }
}

/// The quotient part of B (single thread): sum over primes y < p <= sqrt(x)
/// of pi(x / p), exact whatever the reach of `pi_table`.
pub fn compute_b_term(x: u64, y: u64, primes: &[u64], pi_table: &PiTable) -> (r: u128)
    requires
        pi_table.valid(),
        1 <= primes@.len() <= 0x1000_0000_0000_0000,
        sorted(primes@),
        threshold_in_range(x as int / (y + 1)),
    ensures
        r == b_quotient_sum(x as int, y as int, primes@),
{
    compute_b_term_internal(x, y, primes, pi_table, 1)
}

/// The quotient part of B; `num_threads` is accepted for callers that pass
/// a thread budget, and the evaluation runs on the calling thread.
pub fn compute_b_term_mt(x: u64, y: u64, primes: &[u64], pi_table: &PiTable, num_threads: usize) -> (r: u128)
    requires
        pi_table.valid(),
        1 <= primes@.len() <= 0x1000_0000_0000_0000,
        sorted(primes@),
        threshold_in_range(x as int / (y + 1)),
    ensures
        r == b_quotient_sum(x as int, y as int, primes@),
{
    compute_b_term_internal(x, y, primes, pi_table, num_threads)
}

fn compute_b_term_internal(x: u64, y: u64, primes: &[u64], pi_table: &PiTable, _num_threads: usize) -> (r: u128)
    requires
        pi_table.valid(),
        1 <= primes@.len() <= 0x1000_0000_0000_0000,
        sorted(primes@),
        threshold_in_range(x as int / (y + 1)),
    ensures
        r == b_quotient_sum(x as int, y as int, primes@),
{
    if x < 4 || y >= isqrt(x) {
        return 0;
    }
    let x_sqrt = isqrt(x);
    let tail = slice_subrange(primes, 1, primes.len());
    let ghost ps = primes@;
    assert(sorted(tail@)) by {
        assert forall|i: int, j: int| 0 <= i <= j < tail@.len() implies #[trigger] tail@[i] <= #[trigger] tail@[j] by {
            assert(tail@[i] == ps[i + 1] && tail@[j] == ps[j + 1]);
        }
    }
    let start_idx = 1 + partition_point_le(tail, y);
    let end_idx = 1 + partition_point_le(tail, x_sqrt);
    if start_idx >= end_idx {
        return 0;
    }
    proof {
        assert forall|i: int| start_idx <= i < end_idx implies y < #[trigger] ps[i] <= x_sqrt by {
            assert(ps[i] == tail@[i - 1]);
        }
    }
    let max_y = pi_table.max_y;
    let ghost piv = exact_pi();
    let ghost base = prime_count(max_y as int) as int;
    let ghost lo = max_y + 1;
    let mut sbrb = StreamingReciprocalBuffer::new();
    let mut small: u128 = 0;
    let mut thresholds: Vec<u64> = Vec::new();
    let mut chunk_end = end_idx;
    while chunk_end > start_idx
        invariant
            pi_table.valid(),
            max_y == pi_table.max_y,
            ps == primes@,
            1 <= start_idx < end_idx <= ps.len() <= 0x1000_0000_0000_0000,
            forall|i: int| start_idx <= i < end_idx ==> y < #[trigger] ps[i] <= x_sqrt,
            sorted(ps),
            threshold_in_range(x as int / (y + 1)),
            piv == exact_pi(),
            base == prime_count(max_y as int),
            lo == max_y + 1,
            sbrb.table@.len() == RECIPROCAL_BLOCK_SIZE,
            start_idx <= chunk_end <= end_idx,
            sorted(thresholds@),
            forall|k: int| 0 <= k < thresholds@.len() ==> max_y < #[trigger] thresholds@[k],
            chunk_end < end_idx ==> forall|k: int| 0 <= k < thresholds@.len() ==> #[trigger] thresholds@[k]
                <= x as int / (ps[chunk_end as int] as int),
            thresholds@.len() > 0 ==> chunk_end < end_idx,
            thresholds@.len() <= end_idx - chunk_end,
            small <= (end_idx - chunk_end) * 0x1_0000_0000_0000_0000,
            small + pi_offset_sum(thresholds@, base, lo) == quotient_pi_sum(
                x as int,
                ps,
                chunk_end as int,
                end_idx as int,
                piv,
            ),
        decreases chunk_end,
    {
        let chunk_start = if chunk_end - start_idx > RECIPROCAL_BLOCK_SIZE {
            chunk_end - RECIPROCAL_BLOCK_SIZE
        } else {
            start_idx
        };
        let slice = slice_subrange(primes, chunk_start, chunk_end);
        sbrb.fill_block(slice, x);
        let mut i: usize = slice.len();
        while i > 0
            invariant
                pi_table.valid(),
                max_y == pi_table.max_y,
                ps == primes@,
                1 <= start_idx <= chunk_start < chunk_end <= end_idx <= ps.len() <= 0x1000_0000_0000_0000,
                chunk_end - chunk_start <= RECIPROCAL_BLOCK_SIZE,
                slice@ == ps.subrange(chunk_start as int, chunk_end as int),
                forall|i: int| start_idx <= i < end_idx ==> y < #[trigger] ps[i] <= x_sqrt,
                sorted(ps),
                threshold_in_range(x as int / (y + 1)),
                piv == exact_pi(),
                base == prime_count(max_y as int),
                lo == max_y + 1,
                sbrb.table@.len() == RECIPROCAL_BLOCK_SIZE,
                forall|j: int|
                    0 <= j < slice@.len() ==> (#[trigger] sbrb.table@[j]).divisor == slice@[j]
                        && sbrb.table@[j].max_n == x,
                i <= slice@.len(),
                sorted(thresholds@),
                forall|k: int| 0 <= k < thresholds@.len() ==> max_y < #[trigger] thresholds@[k],
                chunk_start + i < end_idx ==> forall|k: int| 0 <= k < thresholds@.len() ==> #[trigger] thresholds@[k]
                    <= x as int / (ps[chunk_start + i] as int),
                thresholds@.len() > 0 ==> chunk_start + i < end_idx,
                thresholds@.len() <= end_idx - (chunk_start + i),
                small <= (end_idx - (chunk_start + i)) * 0x1_0000_0000_0000_0000,
                small + pi_offset_sum(thresholds@, base, lo) == quotient_pi_sum(
                    x as int,
                    ps,
                    chunk_start + i,
                    end_idx as int,
                    piv,
                ),
            decreases i,
        {
            let ghost idx = chunk_start + i - 1;
            let d = &sbrb.table[i - 1];
            assert(d.divisor == ps[idx]);
            let xp = d.div(x);
            proof {
                lemma_quotient_pi_sum_prepend(x as int, ps, idx, end_idx as int, piv);
                lemma_div_is_ordered_by_denominator(x as int, y + 1, ps[idx] as int);
                if idx + 1 < end_idx {
                    assert(ps[idx] <= ps[idx + 1]);
                    lemma_div_is_ordered_by_denominator(x as int, ps[idx] as int, ps[idx + 1] as int);
                }
                lemma_prime_count_bound(xp as int);
            }
            if xp <= max_y {
                small = small + pi_table.pi(xp) as u128;
            } else {
                let ghost old_t = thresholds@;
                thresholds.push(xp);
                proof {
                    assert(thresholds@.drop_last() =~= old_t);
                    assert forall|a: int, b: int| 0 <= a <= b < thresholds@.len() implies #[trigger] thresholds@[a]
                        <= #[trigger] thresholds@[b] by {
                        if b == old_t.len() {
                            if a < b {
                                assert(old_t[a] <= x as int / (ps[idx + 1] as int));
                            }
                        }
                    }
                }
            }
            i -= 1;
        }
        chunk_end = chunk_start;
    }
    let initial_pi = pi_table.pi(max_y);
    let n_counts = pi_table.counts.len();
    proof {
        assert forall|k: int| 0 <= k < thresholds@.len() implies max_y + 1 <= #[trigger] thresholds@[k]
            && threshold_in_range(thresholds@[k] as int) by {
            lemma_div_is_ordered_by_denominator(x as int, y + 1, ps[start_idx as int] as int);
        }
    }
    let sieve_sum = sum_pi_from(&thresholds, max_y + 1, initial_pi);
    proof {
        lemma_count_le_partition(tail@, y as int, (start_idx - 1) as int);
    }
    small + sieve_sum
}

/// B(x, y) = sum over the listed primes y < p <= sqrt(x) of
/// pi(x / p) - pi(p) + 1, where the entry at index `i` of the list `s`
/// (sentinel stripped) is taken as the `(i + 1)`-th prime.
pub open spec fn b_leaf_sum(x: int, y: int, s: Seq<u64>, piv: spec_fn(int) -> int) -> int {
    let sq = floor_sqrt(x);
    if y >= sq {
        0
    } else {
        index_leaf_sum(x, s, count_le(s, y) as int, count_le(s, sq) as int, piv, 1)
    }
}

/// The running sum of pi(x / p) over the listed primes y < p <= sqrt(x).
pub open spec fn b_quotient_part(x: int, y: int, s: Seq<u64>, piv: spec_fn(int) -> int) -> int {
    let sq = floor_sqrt(x);
    if y >= sq {
        0
    } else {
        quotient_pi_sum(x, s, count_le(s, y) as int, count_le(s, sq) as int, piv)
    }
}

/// The B sum and its running quotient sum fit in i64.
pub open spec fn b_sum_fits(x: int, y: int, s: Seq<u64>, piv: spec_fn(int) -> int) -> bool {
    &&& b_quotient_part(x, y, s, piv) <= i64::MAX
    &&& i64::MIN <= b_leaf_sum(x, y, s, piv) <= i64::MAX
}

/// B(x, y) = sum over primes y < p <= sqrt(x) of pi(x / p) - pi(p) + 1,
/// whether or not `primes` carries a leading 0: the list's primes, taken
/// after that 0, count from 1, and pi(x / p) is read from `pi_table` up to
/// its reach and from the prime list above it.
pub fn compute_b_monotone(x: u64, y: u64, primes: &[u64], pi_table: &PiTable) -> (r: i64)
    requires
        pi_table.valid(),
        sorted(primes@),
        primes@.len() <= 0x1000_0000_0000_0000,
        b_sum_fits(
            x as int,
            y as int,
            strip_sentinel(primes@),
            table_or_slice_pi(pi_table.max_y as int, strip_sentinel(primes@)),
        ),
    ensures
        r == b_leaf_sum(
            x as int,
            y as int,
            strip_sentinel(primes@),
            table_or_slice_pi(pi_table.max_y as int, strip_sentinel(primes@)),
        ),
{
    let sqrt_x = isqrt(x);
    if y >= sqrt_x {
        return 0;
    }
    let prime_slice = strip_sentinel_slice(primes);
    let ghost s = prime_slice@;
    let ghost piv = table_or_slice_pi(pi_table.max_y as int, s);
    proof {
        assert forall|i: int, j: int| 0 <= i <= j < s.len() implies #[trigger] s[i] <= #[trigger] s[j] by {
            if primes@.len() >= 1 && primes@[0] == 0 {
                assert(s[i] == primes@[i + 1] && s[j] == primes@[j + 1]);
            }
        }
    }
    let sampled_idx = SampledPrimeIndex::build(prime_slice);
    let p_start_idx = partition_point_le(prime_slice, y);
    let p_end_idx = partition_point_le(prime_slice, sqrt_x);
    if p_start_idx >= p_end_idx {
        return 0;
    }
    proof {
        lemma_count_le_bound(s, sqrt_x as int);
        assert forall|i: int| p_start_idx <= i < s.len() implies #[trigger] s[i] > y by {
            crate::primality::lemma_count_le_partition_converse(s, y as int, i);
        }
        assert forall|v: int| #[trigger] piv(v) >= 0 by {}
    }
    let ghost qtotal = quotient_pi_sum(x as int, s, p_start_idx as int, p_end_idx as int, piv);
    let active_primes = slice_subrange(prime_slice, p_start_idx, p_end_idx);
    let total_primes = active_primes.len();

    let mut sbrb = StreamingReciprocalBuffer::new();
    let mut sum_pi_quotients: i64 = 0;
    let pi_table_max = pi_table.max_y;

    let mut chunk_start: usize = 0;
    while chunk_start < total_primes
        invariant
            pi_table.valid(),
            pi_table_max == pi_table.max_y,
            sorted(s),
            s == prime_slice@,
            piv == table_or_slice_pi(pi_table.max_y as int, s),
            forall|v: int| #[trigger] piv(v) >= 0,
            0 <= p_start_idx < p_end_idx <= s.len(),
            qtotal == quotient_pi_sum(x as int, s, p_start_idx as int, p_end_idx as int, piv),
            qtotal <= i64::MAX,
            active_primes@ == s.subrange(p_start_idx as int, p_end_idx as int),
            total_primes == p_end_idx - p_start_idx,
            forall|i: int| p_start_idx <= i < s.len() ==> #[trigger] s[i] > y,
            sbrb.table@.len() == RECIPROCAL_BLOCK_SIZE,
            chunk_start <= total_primes,
            sum_pi_quotients == quotient_pi_sum(
                x as int,
                s,
                p_start_idx as int,
                p_start_idx + chunk_start,
                piv,
            ),
        decreases total_primes - chunk_start,
    {
        let chunk_end = if total_primes - chunk_start > RECIPROCAL_BLOCK_SIZE {
            chunk_start + RECIPROCAL_BLOCK_SIZE
        } else {
            total_primes
        };
        let slice = slice_subrange(active_primes, chunk_start, chunk_end);
        let slice_len = slice.len();
        sbrb.fill_block(slice, x);
        let mut i: usize = 0;
        while i < slice_len
            invariant
                pi_table.valid(),
                pi_table_max == pi_table.max_y,
                sorted(s),
                s == prime_slice@,
                piv == table_or_slice_pi(pi_table.max_y as int, s),
                forall|v: int| #[trigger] piv(v) >= 0,
                0 <= p_start_idx < p_end_idx <= s.len(),
                qtotal == quotient_pi_sum(x as int, s, p_start_idx as int, p_end_idx as int, piv),
                qtotal <= i64::MAX,
                active_primes@ == s.subrange(p_start_idx as int, p_end_idx as int),
                chunk_start < chunk_end <= total_primes,
                total_primes == p_end_idx - p_start_idx,
                slice_len == chunk_end - chunk_start,
                slice_len <= RECIPROCAL_BLOCK_SIZE,
                slice@ == active_primes@.subrange(chunk_start as int, chunk_end as int),
                forall|i: int| p_start_idx <= i < s.len() ==> #[trigger] s[i] > y,
                sbrb.table@.len() == RECIPROCAL_BLOCK_SIZE,
                forall|j: int|
                    0 <= j < slice_len ==> (#[trigger] sbrb.table@[j]).divisor == slice@[j]
                        && sbrb.table@[j].max_n == x,
                i <= slice_len,
                sum_pi_quotients == quotient_pi_sum(
                    x as int,
                    s,
                    p_start_idx as int,
                    p_start_idx + chunk_start + i,
                    piv,
                ),
            decreases slice_len - i,
        {
            let d = &sbrb.table[i];
            let ghost idx = p_start_idx + chunk_start + i;
            assert(d.divisor == s[idx]);
            let q = d.div(x);
            proof {
                lemma_div_is_ordered_by_denominator(x as int, 1, d.divisor as int);
                lemma_quotient_pi_sum_partial(x as int, s, p_start_idx as int, idx + 1, p_end_idx as int, piv);
                lemma_quotient_pi_sum_partial(x as int, s, p_start_idx as int, idx, p_end_idx as int, piv);
                assert(quotient_pi_sum(x as int, s, p_start_idx as int, idx + 1, piv) == quotient_pi_sum(
                    x as int,
                    s,
                    p_start_idx as int,
                    idx,
                    piv,
                ) + piv(x as int / s[idx] as int));
            }
            let pi_q = if q <= pi_table_max {
                pi_table.pi(q)
            } else {
                sampled_idx.pi(prime_slice, q)
            };
            assert(pi_q == piv(x as int / s[idx] as int));
            sum_pi_quotients = sum_pi_quotients + pi_q as i64;
            i += 1;
        }
        chunk_start = chunk_end;
    }

    // Exact identity: sum pi(x/p) - sum pi(p) + count, with pi(p) = i + 1.
    let a = p_start_idx as i128 + 1;
    let b = p_end_idx as i128;
    let n = b - a + 1;
    proof {
        lemma_index_sum_closed(a - 1, b as int);
        lemma_index_leaf_sum_parts(x as int, s, p_start_idx as int, p_end_idx as int, piv, 1);
        lemma_index_sum_shift(p_start_idx as int, p_end_idx as int);
        assert((a + b) * n <= 0x4000_0000_0000_0000_0000_0000_0000_0000) by (nonlinear_arith)
            requires
                1 <= a <= b <= 0x1000_0000_0000_0000,
                n == b - a + 1,
        ;
    }
    let sum_pi_p = (a + b) * n / 2;
    let total = sum_pi_quotients as i128 - sum_pi_p + n;
    total as i64
}

/// The count `compute_b_streaming` reads for a quotient `v`: the entries of
/// the list up to `v` while `v <= sq`; above `sq`, the entries up to `sq`
/// plus the primes in `(sq, v]`.
pub open spec fn streaming_pi(s: Seq<u64>, sq: int) -> spec_fn(int) -> int {
    |v: int| if v <= sq { count_le(s, v) as int } else { count_le(s, sq) + prime_count(v) - prime_count(sq) }
}

/// sum over the listed primes y < p <= sqrt(x) of pi(x / p), the list taken
/// after any leading 0, with pi(x / p) as `compute_b_streaming` counts it.
pub open spec fn b_streaming_sum(x: int, y: int, primes: Seq<u64>) -> int {
    let s = strip_sentinel(primes);
    let sq = floor_sqrt(x);
    if y >= sq {
        0
    } else {
        quotient_pi_sum(x, s, count_le(s, y) as int, count_le(s, sq) as int, streaming_pi(s, sq))
    }
}

/// sum over the listed primes y < p <= sqrt(x) of pi(x / p), where `primes`
/// may carry a leading 0, with p running from sqrt(x) down so that the
/// quotients x / p rise and are counted in one forward sieving pass above
/// sqrt(x).
pub fn compute_b_streaming(x: u64, y: u64, primes: &[u64]) -> (r: i64)
    requires
        sorted(primes@),
        primes@.len() <= 0x1000_0000_0000_0000,
        b_streaming_sum(x as int, y as int, primes@) <= i64::MAX,
        threshold_in_range(x as int / (y + 1)),
    ensures
        r == b_streaming_sum(x as int, y as int, primes@),
{
    let x_sqrt = isqrt(x);
    if y >= x_sqrt {
        return 0;
    }
    let prime_slice = strip_sentinel_slice(primes);
    let ghost s = prime_slice@;
    let ghost len = primes@.len() as int;
    proof {
        assert forall|i: int, j: int| 0 <= i <= j < s.len() implies #[trigger] s[i] <= #[trigger] s[j] by {
            if primes@.len() >= 1 && primes@[0] == 0 {
                assert(s[i] == primes@[i + 1] && s[j] == primes@[j + 1]);
            }
        }
    }
    let p_start_idx = partition_point_le(prime_slice, y);
    let p_end_idx = partition_point_le(prime_slice, x_sqrt);
    if p_start_idx >= p_end_idx {
        return 0;
    }
    proof {
        assert forall|i: int| p_start_idx <= i < p_end_idx implies y < #[trigger] s[i] <= x_sqrt by {}
    }
    let ghost piv = streaming_pi(s, x_sqrt as int);
    let first_p = prime_slice[p_start_idx];
    let hi = x / first_p;
    assert(x_sqrt < 0x1_0000_0000) by (nonlinear_arith)
        requires
            x_sqrt * x_sqrt <= x,
            x <= u64::MAX,
            x_sqrt >= 0,
    ;
    let lo = x_sqrt + 1;
    if lo > hi {
        // Every quotient lies at or below sqrt(x): the list answers each.
        let mut sum_small: u128 = 0;
        let mut idx = p_end_idx;
        while idx > p_start_idx
            invariant
                s == prime_slice@,
                sorted(s),
                0 <= p_start_idx < p_end_idx <= s.len() <= len,
                forall|i: int| p_start_idx <= i < p_end_idx ==> y < #[trigger] s[i] <= x_sqrt,
                first_p == s[p_start_idx as int],
                hi == x / first_p,
                lo == x_sqrt + 1,
                lo > hi,
                piv == streaming_pi(s, x_sqrt as int),
                p_start_idx <= idx <= p_end_idx,
                sum_small <= (p_end_idx - idx) * len,
                len <= 0x1000_0000_0000_0000,
                sum_small == quotient_pi_sum(x as int, s, idx as int, p_end_idx as int, piv),
            decreases idx,
        {
            let p = prime_slice[idx - 1];
            let xp = x / p;
            proof {
                lemma_quotient_pi_sum_prepend(x as int, s, idx - 1, p_end_idx as int, piv);
                assert(first_p <= p);
                lemma_div_is_ordered_by_denominator(x as int, first_p as int, p as int);
                lemma_count_le_bound(s, xp as int);
                assert((p_end_idx - idx + 1) * len == (p_end_idx - idx) * len + len) by (nonlinear_arith);
                assert((p_end_idx - idx) * len <= len * len) by (nonlinear_arith)
                    requires
                        0 <= p_end_idx - idx <= len,
                ;
                assert(len * len <= 0x1000_0000_0000_0000 * 0x1000_0000_0000_0000) by (nonlinear_arith)
                    requires
                        0 <= len <= 0x1000_0000_0000_0000,
                ;
            }
            let cnt = partition_point_le(prime_slice, xp);
            sum_small = sum_small + cnt as u128;
            idx -= 1;
        }
        return sum_small as i64;
    }
    // p runs down from sqrt(x): quotients at or below sqrt(x) are read from
    // the list, the rest rise and are gathered in ascending order.
    let running_pi = p_end_idx as u64;
    let mut sum_small: u128 = 0;
    let mut rising: Vec<u64> = Vec::new();
    let mut p_idx = p_end_idx;
    while p_idx > p_start_idx
        invariant
            s == prime_slice@,
            sorted(s),
            0 <= p_start_idx < p_end_idx <= s.len() <= len,
            len <= 0x1000_0000_0000_0000,
            forall|i: int| p_start_idx <= i < p_end_idx ==> y < #[trigger] s[i] <= x_sqrt,
            threshold_in_range(x as int / (y + 1)),
            piv == streaming_pi(s, x_sqrt as int),
            running_pi == p_end_idx,
            running_pi == count_le(s, x_sqrt as int),
            p_start_idx <= p_idx <= p_end_idx,
            sorted(rising@),
            forall|k: int| 0 <= k < rising@.len() ==> x_sqrt < #[trigger] rising@[k] <= x as int / (y + 1),
            p_idx < p_end_idx ==> forall|k: int| 0 <= k < rising@.len() ==> #[trigger] rising@[k]
                <= x as int / (s[p_idx as int] as int),
            rising@.len() > 0 ==> p_idx < p_end_idx,
            rising@.len() <= p_end_idx - p_idx,
            sum_small <= (p_end_idx - p_idx - rising@.len()) * len,
            sum_small + pi_offset_sum(rising@, running_pi as int, x_sqrt + 1) == quotient_pi_sum(
                x as int,
                s,
                p_idx as int,
                p_end_idx as int,
                piv,
            ),
        decreases p_idx,
    {
        let p = prime_slice[p_idx - 1];
        let xp = x / p;
        proof {
            lemma_quotient_pi_sum_prepend(x as int, s, p_idx - 1, p_end_idx as int, piv);
            lemma_div_is_ordered_by_denominator(x as int, y + 1, p as int);
            if p_idx < p_end_idx {
                assert(s[p_idx - 1] <= s[p_idx as int]);
                lemma_div_is_ordered_by_denominator(x as int, p as int, s[p_idx as int] as int);
            }
        }
        if xp <= x_sqrt {
            let cnt = partition_point_le(prime_slice, xp);
            proof {
                lemma_count_le_bound(s, xp as int);
                assert((p_end_idx - p_idx - rising@.len()) * len + len == (p_end_idx - (p_idx - 1)
                    - rising@.len()) * len) by (nonlinear_arith);
                assert((p_end_idx - p_idx - rising@.len()) * len <= len * len) by (nonlinear_arith)
                    requires
                        0 <= p_end_idx - p_idx - rising@.len() <= len,
                ;
                assert(len * len <= 0x1000_0000_0000_0000 * 0x1000_0000_0000_0000) by (nonlinear_arith)
                    requires
                        0 <= len <= 0x1000_0000_0000_0000,
                ;
            }
            sum_small = sum_small + cnt as u128;
        } else {
            let ghost old_r = rising@;
            rising.push(xp);
            proof {
                assert(rising@.drop_last() =~= old_r);
                assert forall|a: int, b: int| 0 <= a <= b < rising@.len() implies #[trigger] rising@[a]
                    <= #[trigger] rising@[b] by {
                    if b == old_r.len() && a < b {
                        assert(old_r[a] <= x as int / (s[p_idx as int] as int));
                    }
                }
            }
        }
        p_idx -= 1;
    }
    proof {
        assert forall|k: int| 0 <= k < rising@.len() implies x_sqrt + 1 <= #[trigger] rising@[k]
            && threshold_in_range(rising@[k] as int) by {}
        lemma_pi_offset_sum_bound(rising@, running_pi as int, x_sqrt + 1, x as int);
    }
    let sum_sieved = sum_pi_from(&rising, x_sqrt + 1, running_pi);
    proof {
        let m = rising@.len() as int;
        let n = (p_end_idx - p_start_idx) as int;
        assert(sum_small + sum_sieved <= 0x1000_0000_0000_0000 * (0x1000_0000_0000_0000 + 0x2_0000_0000_0000_0000)) by (nonlinear_arith)
            requires
                sum_small <= (n - m) * len,
                sum_sieved <= m * 0x2_0000_0000_0000_0000,
                0 <= m <= n <= len,
                len <= 0x1000_0000_0000_0000,
        ;
    }
    (sum_small + sum_sieved) as i64
}

/// pi counted by the entries of a list.
pub open spec fn list_pi(s: Seq<u64>) -> spec_fn(int) -> int {
    |v: int| count_le(s, v) as int
}

/// B(x, y) over a sentinel-free ascending prime list, with pi(x / p) found by
/// one cursor that only moves forward while p runs from sqrt(x) down to y:
/// sum over indices i of the primes in (y, sqrt(x)] of
/// (entries <= x / primes[i]) - (i + 1) + 1.
pub fn compute_b_decoupled(x: u64, y: u64, primes: &[u64], reciprocals: &[FastDiv64]) -> (r: i64)
    requires
        sorted(primes@),
        2 * (primes@.len() + 1) * (primes@.len() + 1) <= i64::MAX,
        count_le(primes@, floor_sqrt(x as int)) <= reciprocals@.len(),
        forall|i: int|
            count_le(primes@, y as int) <= i < count_le(primes@, floor_sqrt(x as int)) ==> (
            #[trigger] reciprocals@[i]).divisor == primes@[i] && reciprocals@[i].max_n >= x,
    ensures
        r == if y >= floor_sqrt(x as int) {
            0
        } else {
            index_leaf_sum(
                x as int,
                primes@,
                count_le(primes@, y as int) as int,
                count_le(primes@, floor_sqrt(x as int)) as int,
                list_pi(primes@),
                1,
            )
        },
{
    let x_sqrt = isqrt(x);
    if y >= x_sqrt {
        return 0;
    }
    let p_start_idx = partition_point_le(primes, y);
    let p_end_idx = partition_point_le(primes, x_sqrt);
    if p_start_idx >= p_end_idx {
        return 0;
    }
    let ghost len = primes@.len() as int;
    let ghost piv = list_pi(primes@);
    proof {
        assert forall|i: int| p_start_idx <= i < primes@.len() implies #[trigger] primes@[i] > y by {
            crate::primality::lemma_count_le_partition_converse(primes@, y as int, i);
        }
        assert(2 * len + 2 <= i64::MAX && len * len + len <= i64::MAX) by (nonlinear_arith)
            requires
                2 * (len + 1) * (len + 1) <= i64::MAX,
                len >= 0,
        ;
    }
    let pi_y = p_start_idx as i64;
    let pi_sqrt = p_end_idx as i64;
    // Gauss closed form for sum over the active primes of 1 - pi(p).
    let count = pi_sqrt - pi_y;
    proof {
        lemma_index_sum_closed(pi_y as int, pi_sqrt as int);
        assert((pi_y + 1 + pi_sqrt) * count <= 2 * len * len + 2 * len) by (nonlinear_arith)
            requires
                0 <= pi_y < pi_sqrt <= len,
                count == pi_sqrt - pi_y,
        ;
        assert(2 * len * len + 2 * len <= i64::MAX) by (nonlinear_arith)
            requires
                2 * (len + 1) * (len + 1) <= i64::MAX,
                len >= 0,
        ;
    }
    let sum_i = (pi_y + 1 + pi_sqrt) * count / 2;
    let gauss_term = count - sum_i;

    // Monotone walk for the sum over the active primes of pi(x / p).
    let active_primes = slice_subrange(primes, p_start_idx, p_end_idx);
    let active_reciprocals = slice_subrange(reciprocals, p_start_idx, p_end_idx);
    let mut parallel_sum: i64 = 0;
    let n = active_primes.len();
    let mut prime_cursor_idx: usize = 0;
    let mut i: usize = n;
    while i > 0
        invariant
            sorted(primes@),
            len == primes@.len(),
            len * len + len <= i64::MAX,
            piv == list_pi(primes@),
            0 <= p_start_idx < p_end_idx <= len,
            n == p_end_idx - p_start_idx,
            active_primes@ == primes@.subrange(p_start_idx as int, p_end_idx as int),
            active_reciprocals@ == reciprocals@.subrange(p_start_idx as int, p_end_idx as int),
            p_end_idx <= reciprocals@.len(),
            forall|k: int| p_start_idx <= k < primes@.len() ==> #[trigger] primes@[k] > y,
            forall|k: int|
                p_start_idx <= k < p_end_idx ==> (#[trigger] reciprocals@[k]).divisor == primes@[k]
                    && reciprocals@[k].max_n >= x,
            i <= n,
            prime_cursor_idx <= len,
            i < n ==> forall|k: int| 0 <= k < prime_cursor_idx ==> #[trigger] primes@[k] as int <= x as int
                / (primes@[p_start_idx + i] as int),
            i == n ==> prime_cursor_idx == 0,
            parallel_sum == quotient_pi_sum(x as int, primes@, p_start_idx + i, p_end_idx as int, piv),
            0 <= parallel_sum <= (n - i) * len,
        decreases i,
    {
        i -= 1;
        let ghost idx = p_start_idx + i;
        assert(active_reciprocals@[i as int] == reciprocals@[idx]);
        let xp = active_reciprocals[i].div(x);
        proof {
            if i + 1 < n {
                assert(primes@[idx] <= primes@[idx + 1]);
                crate::roots::lemma_div_antitone(x as int, primes@[idx] as int, primes@[idx + 1] as int);
            }
        }
        while prime_cursor_idx < primes.len() && primes[prime_cursor_idx] <= xp
            invariant
                prime_cursor_idx <= len,
                len == primes@.len(),
                forall|k: int| 0 <= k < prime_cursor_idx ==> #[trigger] primes@[k] <= xp,
            decreases len - prime_cursor_idx,
        {
            prime_cursor_idx += 1;
        }
        proof {
            assert forall|k: int| prime_cursor_idx <= k < len implies #[trigger] primes@[k] > xp by {
                assert(primes@[prime_cursor_idx as int] <= primes@[k]);
            }
            assert(is_partition_point(primes@, xp as int, prime_cursor_idx as int));
            crate::primality::lemma_count_le_partition(primes@, xp as int, prime_cursor_idx as int);
            crate::leaf_sums::lemma_quotient_pi_sum_prepend(x as int, primes@, idx, p_end_idx as int, piv);
            assert((n - i) * len == (n - i - 1) * len + len) by (nonlinear_arith);
            assert((n - i) * len <= len * len) by (nonlinear_arith)
                requires
                    n - i <= len,
                    len >= 0,
            ;
        }
        parallel_sum += prime_cursor_idx as i64;
    }
    proof {
        lemma_index_leaf_sum_parts(x as int, primes@, p_start_idx as int, p_end_idx as int, piv, 1);
        assert(parallel_sum <= len * len) by (nonlinear_arith)
            requires
                parallel_sum <= n * len,
                n <= len,
                len >= 0,
        ;
        assert(index_sum(pi_y - 1, pi_sqrt - 1) + count == index_sum(pi_y as int, pi_sqrt as int))
            by {
            crate::leaf_sums::lemma_index_sum_shift(pi_y as int, pi_sqrt as int);
        }
    }
    parallel_sum + gauss_term
}

/// B(x, y) as computed by index equals its definition as a sum over the
/// primes y < p <= sqrt(x) when `primes` is the 0-led list of all primes up
/// to at least sqrt(x).
pub proof fn lemma_b_index_sum_is_b(x: int, y: int, primes: Seq<u64>, piv: spec_fn(int) -> int)
    requires
        sentinel_prime_list(primes),
        0 <= y < floor_sqrt(x),
        x >= 0,
        prime_count(floor_sqrt(x)) < primes.len(),
    ensures
        index_leaf_sum(x, primes, count_le(primes, y) as int, count_le(primes, floor_sqrt(x)) as int, piv, 0)
            == ac_leaf_sum(x, y, floor_sqrt(x), piv),
{
    let sq = floor_sqrt(x);
    let s = strip_sentinel(primes);
    lemma_prime_count_monotone(y, sq);
    lemma_sentinel_list_counts(primes, y);
    lemma_sentinel_list_counts(primes, sq);
    assert(prime_list_from(primes, 1, 0)) by {
        assert forall|i: int| 1 <= i < primes.len() implies is_prime(#[trigger] primes[i] as int)
            && prime_count(primes[i] as int) == i + 0 by {
            assert(primes[i] == s[i - 1]);
        }
    }
    lemma_index_leaf_sum_is_leaf_sum(x, primes, 1, 0, y, sq, piv);
}

/// In a 0-led prime list reaching pi(w), the entries `<= w` are the
/// sentinel and the pi(w) primes.
pub proof fn lemma_sentinel_list_counts(primes: Seq<u64>, w: int)
    requires
        sentinel_prime_list(primes),
        w >= 0,
        prime_count(w) < primes.len(),
    ensures
        count_le(primes, w) == prime_count(w) + 1,
        sorted(primes),
{
    let s = strip_sentinel(primes);
    lemma_prime_list_sorted(s);
    assert(sorted(primes)) by {
        assert forall|i: int, j: int| 0 <= i <= j < primes.len() implies #[trigger] primes[i]
            <= #[trigger] primes[j] by {
            if i >= 1 {
                assert(primes[i] == s[i - 1] && primes[j] == s[j - 1]);
                if i < j {
                    assert(s[i - 1] < s[j - 1]);
                }
            }
        }
    }
    assert(sorted(s)) by {
        assert forall|i: int, j: int| 0 <= i <= j < s.len() implies #[trigger] s[i] <= #[trigger] s[j] by {
            if i < j {
                assert(s[i] < s[j]);
            }
        }
    }
    let r = lemma_partition_exists(s, w);
    lemma_prime_list_partition(s, w, r);
    lemma_sentinel_count(primes, w, r);
}

/// Over a 0-led prime list that reaches sqrt(x), the quotient part of B is
/// the sum over the primes y < p <= sqrt(x) of pi(x / p).
pub proof fn lemma_b_quotient_sum_is_prime_sum(x: int, y: int, primes: Seq<u64>)
    requires
        sentinel_prime_list(primes),
        x >= 4,
        0 <= y < floor_sqrt(x),
        prime_count(floor_sqrt(x)) < primes.len(),
    ensures
        b_quotient_sum(x, y, primes) == prime_sum(y, floor_sqrt(x), quotient_term(x, exact_pi())),
{
    let sq = floor_sqrt(x);
    let tail = primes.subrange(1, primes.len() as int);
    lemma_prime_count_monotone(y, sq);
    lemma_prime_list_count(tail, y);
    lemma_prime_list_count(tail, sq);
    assert(prime_list_from(primes, 1, 0)) by {
        assert forall|i: int| 1 <= i < primes.len() implies is_prime(#[trigger] primes[i] as int)
            && prime_count(primes[i] as int) == i + 0 by {
            assert(primes[i] == tail[i - 1]);
        }
    }
    lemma_quotient_sum_is_prime_sum(x, primes, 1, 0, y, sq, exact_pi());
}

/// Over a prime list (with or without a leading 0) that reaches sqrt(x),
/// the streaming evaluation reads exact counts: it is the sum over the
/// primes y < p <= sqrt(x) of pi(x / p), as the quotient part of B is.
pub proof fn lemma_b_streaming_is_prime_sum(x: int, y: int, primes: Seq<u64>)
    requires
        prime_list(strip_sentinel(primes)),
        x >= 0,
        0 <= y < floor_sqrt(x),
        prime_count(floor_sqrt(x)) <= strip_sentinel(primes).len(),
    ensures
        ({
            let s = strip_sentinel(primes);
            let sq = floor_sqrt(x);
            quotient_pi_sum(x, s, count_le(s, y) as int, count_le(s, sq) as int, streaming_pi(s, sq))
                == prime_sum(y, sq, quotient_term(x, exact_pi()))
        }),
{
    let s = strip_sentinel(primes);
    let sq = floor_sqrt(x);
    lemma_prime_count_monotone(y, sq);
    lemma_prime_list_count(s, y);
    lemma_prime_list_count(s, sq);
    assert(streaming_pi(s, sq) =~= exact_pi()) by {
        assert forall|v: int| #[trigger] streaming_pi(s, sq)(v) == exact_pi()(v) by {
            if v <= sq {
                lemma_prime_count_monotone(v, sq);
                lemma_prime_list_count(s, v);
            }
        }
    }
    assert(prime_list_from(s, 0, 1)) by {
        assert forall|i: int| 0 <= i < s.len() implies is_prime(#[trigger] s[i] as int)
            && prime_count(s[i] as int) == i + 1 by {}
    }
    lemma_quotient_sum_is_prime_sum(x, s, 0, 1, y, sq, exact_pi());
}

} // verus!
