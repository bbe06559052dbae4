//! One share of the B(x, y) sweep: the leaves of a run of consecutive
//! indices of a 0-led prime list, divided through a streamed block of
//! prepared divisors.
use vstd::prelude::*;
use crate::b_term::{StreamingReciprocalBuffer, RECIPROCAL_BLOCK_SIZE};
use crate::b_term::b_leaf_sum;
use crate::leaf_sums::{
    index_leaf_sum, quotient_pi_sum, table_or_slice_pi, lemma_index_leaf_sum_parts, lemma_index_leaf_sum_split,
    lemma_index_sum_closed, lemma_quotient_pi_sum_partial,
};
use crate::pi_table::PiTable;
use crate::primality::{count_le, sorted, strip_sentinel, lemma_count_le_bound};
use crate::roots::floor_sqrt;
use crate::sampled_index::SampledPrimeIndex;
use vstd::slice::slice_subrange;
use vstd::arithmetic::div_mod::lemma_div_is_ordered_by_denominator;

verus! {

/// The leaves of the indices [start_idx, end_idx) of the 0-led list
/// `primes`: the sum of pi(x / P[i]) - i + 1, with pi read from the table up
/// to its reach and counted in `prime_slice` above it.
pub fn sweep_range(
    x: u64,
    start_idx: usize,
    end_idx: usize,
    primes: &[u64],
    pi_table: &PiTable,
    sampled_idx: &SampledPrimeIndex,
    prime_slice: &[u64],
) -> (r: i64)
    requires
        pi_table.valid(),
        sorted(prime_slice@),
        prime_slice@ == strip_sentinel(primes@),
        end_idx <= primes@.len() <= 0x1000_0000_0000_0000,
        forall|i: int| start_idx <= i < end_idx ==> #[trigger] primes@[i] > 0,
        quotient_pi_sum(
            x as int,
            primes@,
            start_idx as int,
            end_idx as int,
            table_or_slice_pi(pi_table.max_y as int, prime_slice@),
        ) <= i64::MAX,
        i64::MIN <= index_leaf_sum(
            x as int,
            primes@,
            start_idx as int,
            end_idx as int,
            table_or_slice_pi(pi_table.max_y as int, prime_slice@),
            0,
        ) <= i64::MAX,
    ensures
        r == index_leaf_sum(
            x as int,
            primes@,
            start_idx as int,
            end_idx as int,
            table_or_slice_pi(pi_table.max_y as int, prime_slice@),
            0,
        ),
{
    let ghost ps = primes@;
    let ghost piv = table_or_slice_pi(pi_table.max_y as int, prime_slice@);
    if start_idx >= end_idx {
        return 0;
    }
    let ghost qtotal = quotient_pi_sum(x as int, ps, start_idx as int, end_idx as int, piv);
    proof {
        assert forall|v: int| #[trigger] piv(v) >= 0 by {}
    }
    let active_slice = slice_subrange(primes, start_idx, end_idx);
    let total = active_slice.len();
    let mut sbrb = StreamingReciprocalBuffer::new();
    let mut sum_pi_quotients: i64 = 0;
    let pi_max = pi_table.max_y;
    let mut chunk_start: usize = 0;
    while chunk_start < total
        invariant
            ps == primes@,
            piv == table_or_slice_pi(pi_table.max_y as int, prime_slice@),
            forall|v: int| #[trigger] piv(v) >= 0,
            pi_max == pi_table.max_y,
            pi_table.valid(),
            sorted(prime_slice@),
            start_idx < end_idx <= ps.len(),
            active_slice@ == ps.subrange(start_idx as int, end_idx as int),
            prime_slice@ == strip_sentinel(ps),
            total == end_idx - start_idx,
            ps.len() <= 0x1000_0000_0000_0000,
            chunk_start <= total,
            sbrb.table@.len() == RECIPROCAL_BLOCK_SIZE,
            forall|i: int| start_idx <= i < end_idx ==> #[trigger] ps[i] > 0,
            qtotal == quotient_pi_sum(x as int, ps, start_idx as int, end_idx as int, piv),
            qtotal <= i64::MAX,
            sum_pi_quotients == quotient_pi_sum(x as int, ps, start_idx as int, start_idx + chunk_start, piv),
        decreases total - chunk_start,
    {
        let chunk_end = if total - chunk_start > RECIPROCAL_BLOCK_SIZE {
            chunk_start + RECIPROCAL_BLOCK_SIZE
        } else {
            total
        };
        let slice = slice_subrange(active_slice, chunk_start, chunk_end);
        let slice_len = slice.len();
        sbrb.fill_block(slice, x);
        let mut i: usize = 0;
        while i < slice_len
            invariant
                ps == primes@,
                piv == table_or_slice_pi(pi_table.max_y as int, prime_slice@),
                forall|v: int| #[trigger] piv(v) >= 0,
                pi_max == pi_table.max_y,
                pi_table.valid(),
                sorted(prime_slice@),
                start_idx < end_idx <= ps.len(),
                active_slice@ == ps.subrange(start_idx as int, end_idx as int),
                prime_slice@ == strip_sentinel(ps),
                total == end_idx - start_idx,
                chunk_start < chunk_end <= total,
                slice_len == chunk_end - chunk_start,
                slice_len <= RECIPROCAL_BLOCK_SIZE,
                slice@ == active_slice@.subrange(chunk_start as int, chunk_end as int),
                sbrb.table@.len() == RECIPROCAL_BLOCK_SIZE,
                forall|k: int| 0 <= k < slice_len ==> (#[trigger] sbrb.table@[k]).divisor == slice@[k]
                    && sbrb.table@[k].max_n == x,
                forall|k: int| start_idx <= k < end_idx ==> #[trigger] ps[k] > 0,
                qtotal == quotient_pi_sum(x as int, ps, start_idx as int, end_idx as int, piv),
                qtotal <= i64::MAX,
                i <= slice_len,
                sum_pi_quotients == quotient_pi_sum(x as int, ps, start_idx as int, start_idx + chunk_start + i, piv),
            decreases slice_len - i,
        {
            let ghost g = start_idx + chunk_start + i;
            assert(sbrb.table@[i as int].divisor == ps[g]);
            let q = sbrb.table[i].div(x);
            proof {
                lemma_div_is_ordered_by_denominator(x as int, 1, ps[g] as int);
                lemma_quotient_pi_sum_partial(x as int, ps, start_idx as int, g + 1, end_idx as int, piv);
                lemma_quotient_pi_sum_partial(x as int, ps, start_idx as int, g, end_idx as int, piv);
                assert(quotient_pi_sum(x as int, ps, start_idx as int, g + 1, piv) == quotient_pi_sum(
                    x as int,
                    ps,
                    start_idx as int,
                    g,
                    piv,
                ) + piv(x as int / ps[g] as int));
            }
            let pi_q = if q <= pi_max {
                pi_table.pi(q)
            } else {
                sampled_idx.pi(prime_slice, q)
            };
            assert(pi_q == piv(x as int / ps[g] as int));
            sum_pi_quotients = sum_pi_quotients + pi_q as i64;
            i += 1;
        }
        chunk_start = chunk_end;
    }
    // sum pi(x/p) - sum pi(p) + count, with pi(P[i]) = i.
    let a = start_idx as i128;
    let b = (end_idx - 1) as i128;
    let n = b - a + 1;
    proof {
        lemma_index_leaf_sum_parts(x as int, ps, start_idx as int, end_idx as int, piv, 0);
        lemma_index_sum_closed(start_idx - 1, end_idx - 1);
        assert((a + b) * n <= 0x2000_0000_0000_0000 * 0x1000_0000_0000_0000) by (nonlinear_arith)
            requires
                0 <= a <= b < 0x1000_0000_0000_0000,
                n == b - a + 1,
        ;
        assert(0 <= (a + b) * n) by (nonlinear_arith)
            requires
                0 <= a <= b,
                n == b - a + 1,
        ;
    }
    let sum_pi_p = (a + b) * n / 2;
    let result = sum_pi_quotients as i128 - sum_pi_p + n;
    result as i64
}

/// The shares of a B sweep add up: cut the 0-led list at any index between
/// the first prime above y and the last at or below sqrt(x), and the two
/// shares of indices give together the B sum that `compute_b_monotone`
/// states over the primes after the 0.
pub proof fn lemma_sweep_shares_add_up(x: int, y: int, ps: Seq<u64>, piv: spec_fn(int) -> int, split: int)
    requires
        ps.len() >= 1,
        ps[0] == 0,
        y < floor_sqrt(x),
        count_le(strip_sentinel(ps), y) + 1 <= split <= count_le(strip_sentinel(ps), floor_sqrt(x)) + 1,
    ensures
        index_leaf_sum(x, ps, count_le(strip_sentinel(ps), y) as int + 1, split, piv, 0) + index_leaf_sum(
            x,
            ps,
            split,
            count_le(strip_sentinel(ps), floor_sqrt(x)) as int + 1,
            piv,
            0,
        ) == b_leaf_sum(x, y, strip_sentinel(ps), piv),
{
    let s = strip_sentinel(ps);
    let lo = count_le(s, y) as int;
    let hi = count_le(s, floor_sqrt(x)) as int;
    lemma_count_le_bound(s, floor_sqrt(x));
    lemma_index_leaf_sum_split(x, ps, lo + 1, split, hi + 1, piv, 0);
    lemma_index_leaf_sum_strip(x, ps, lo, hi, piv);
}

/// Over a 0-led list, the leaves at indices [lo + 1, hi + 1) counted from 0
/// are the leaves of the list after the 0 at [lo, hi) counted from 1.
pub proof fn lemma_index_leaf_sum_strip(x: int, ps: Seq<u64>, lo: int, hi: int, piv: spec_fn(int) -> int)
    requires
        ps.len() >= 1,
        ps[0] == 0,
        0 <= lo,
        hi <= ps.len() - 1,
    ensures
        index_leaf_sum(x, ps, lo + 1, hi + 1, piv, 0) == index_leaf_sum(x, strip_sentinel(ps), lo, hi, piv, 1),
    decreases hi - lo,
{
    let s = strip_sentinel(ps);
    if lo < hi {
        lemma_index_leaf_sum_strip(x, ps, lo, hi - 1, piv);
        assert(ps[hi] == s[hi - 1]);
    }
}

} // verus!
