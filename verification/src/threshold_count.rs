//! Prime counts at many ascending thresholds above a known point, taken by
//! one forward pass of sieved quotient windows.
use vstd::prelude::*;
use crate::ac_parallel_v2::{
    QuotientWindow, SEGMENT_Q, covers_window, window_pi, lemma_window_pi_is_prime_count,
};
use crate::pi_table::generate_primes;
use crate::primality::{
    is_prime, prime_count, sorted, lemma_prime_count_bound, lemma_prime_count_monotone,
    lemma_prime_list_sorted, lemma_prime_count_step,
};
use crate::roots::{isqrt, is_floor_sqrt};
use crate::intmath::min_u64;

verus! {

/// Largest threshold the pass accepts.
pub const THRESHOLD_LIMIT: u64 = 0x3fff_ffff_ffff_ffff;

/// A threshold the pass can sieve up to: within THRESHOLD_LIMIT and below
/// the address range.
pub open spec fn threshold_in_range(t: int) -> bool {
    t <= THRESHOLD_LIMIT && t < usize::MAX
}

/// Sum over the thresholds `t` of `base + pi(t) - pi(lo - 1)`: each term is
/// `base` plus the number of primes in `[lo, t]`.
pub open spec fn pi_offset_sum(ts: Seq<u64>, base: int, lo: int) -> int
    decreases ts.len(),
{
    if ts.len() == 0 {
        0
    } else {
        pi_offset_sum(ts.drop_last(), base, lo) + base + prime_count(ts.last() as int) - prime_count(
            lo - 1,
        )
    }
}

/// Each term of the offset sum lies between `base` and `base + m` when every
/// threshold lies in `[lo - 1, m]`.
pub proof fn lemma_pi_offset_sum_bound(ts: Seq<u64>, base: int, lo: int, m: int)
    requires
        base >= 0,
        lo >= 1,
        forall|i: int| 0 <= i < ts.len() ==> lo - 1 <= #[trigger] ts[i] <= m,
    ensures
        ts.len() * base <= pi_offset_sum(ts, base, lo) <= ts.len() * (base + m),
    decreases ts.len(),
{
    if ts.len() > 0 {
        let t = ts.last() as int;
        assert(ts[ts.len() - 1] == t);
        lemma_pi_offset_sum_bound(ts.drop_last(), base, lo, m);
        lemma_prime_count_monotone(lo - 1, t);
        lemma_prime_count_bound(t);
        assert((ts.len() - 1) * (base + m) + base + m == ts.len() * (base + m)) by (nonlinear_arith);
        assert((ts.len() - 1) * base + base == ts.len() * base) by (nonlinear_arith);
    }
}

/// A window based at any count answers that count plus the primes in
/// `[low, v]`.
pub proof fn lemma_window_pi_offset(low: int, high: int, b: int, bp: Seq<u64>, v: int)
    requires
        covers_window(bp, high),
        low % 2 == 1,
        1 <= low <= v < high,
    ensures
        window_pi(low, b, v, high, bp) == b + prime_count(v) - prime_count(low - 1),
{
    lemma_window_pi_is_prime_count(low, high, prime_count(low - 1) as int, bp, v);
}

/// The primes up to floor(sqrt(top)) sieve every window ending at most at
/// `top + 1`.
proof fn lemma_base_covers(bp: Seq<u64>, top: int, r: int, high: int)
    requires
        crate::primality::primes_up_to(bp, r),
        is_floor_sqrt(top, r),
        high <= top + 1,
    ensures
        covers_window(bp, high),
{
    assert forall|q: int| #[trigger] is_prime(q) && q * q < high implies prime_count(q) <= bp.len() by {
        if q > r {
            assert(q * q >= (r + 1) * (r + 1)) by (nonlinear_arith)
                requires
                    q >= r + 1,
                    r >= 0,
            ;
        }
        lemma_prime_count_monotone(q, r);
    }
}

/// `sum over t in ts of base + pi(t) - pi(lo - 1)`, for ascending thresholds
/// that are all at least `lo`.
pub fn sum_pi_from(ts: &[u64], lo: u64, base: u64) -> (r: u128)
    requires
        sorted(ts@),
        lo >= 1,
        ts@.len() <= 0x1000_0000_0000_0000,
        forall|i: int| 0 <= i < ts@.len() ==> lo <= #[trigger] ts@[i] && threshold_in_range(ts@[i] as int),
    ensures
        r == pi_offset_sum(ts@, base as int, lo as int),
        r <= ts@.len() * 0x2_0000_0000_0000_0000,
{
    let n = ts.len();
    if n == 0 {
        return 0;
    }
    let top = ts[n - 1];
    let r_top = isqrt(top);
    assert(r_top <= top) by (nonlinear_arith)
        requires
            r_top * r_top <= top,
            r_top >= 0,
    ;
    assert(threshold_in_range(top as int));
    assert(r_top < 0x8000_0000) by (nonlinear_arith)
        requires
            r_top * r_top <= top,
            top <= THRESHOLD_LIMIT,
            r_top >= 0,
    ;
    assert(r_top < usize::MAX / 2) by (nonlinear_arith)
        requires
            r_top * r_top <= top,
            top < usize::MAX,
            usize::MAX >= 0xffff_ffff,
            r_top >= 0,
    ;
    let bp = generate_primes(r_top);
    proof {
        lemma_prime_list_sorted(bp@);
    }
    // The first window starts at an odd point at or just below `lo`; its
    // count at `lo - 1` is subtracted when that point is below `lo`.
    let low0 = if lo % 2 == 1 {
        lo
    } else {
        lo - 1
    };
    let high0 = min_u64(low0 + SEGMENT_Q, top + 1);
    proof {
        lemma_base_covers(bp@, top as int, r_top as int, high0 as int);
    }
    let mut w = QuotientWindow::sieve(low0, high0, &bp, 0);
    let adjust: u64 = if lo % 2 == 1 {
        0
    } else {
        w.pi(low0)
    };
    proof {
        lemma_window_pi_offset(low0 as int, high0 as int, 0, bp@, low0 as int);
        lemma_prime_count_step(low0 as int);
        if lo % 2 == 0 {
            assert(low0 + 1 == lo);
        }
    }
    let mut acc: u128 = 0;
    let mut j: usize = 0;
    while j < n
        invariant
            n == ts@.len(),
            sorted(ts@),
            lo >= 1,
            ts@.len() <= 0x1000_0000_0000_0000,
            forall|i: int| 0 <= i < ts@.len() ==> lo <= #[trigger] ts@[i] && threshold_in_range(ts@[i] as int),
            top == ts@[n - 1],
            r_top * r_top <= top,
            is_floor_sqrt(top as int, r_top as int),
            crate::primality::primes_up_to(bp@, r_top as int),
            sorted(bp@),
            low0 % 2 == 1,
            1 <= low0 <= lo,
            lo <= low0 + 1,
            adjust as int == prime_count(lo - 1) - prime_count(low0 - 1),
            w.valid(),
            w.sieved_with@ == bp@,
            w.low % 2 == 1,
            low0 <= w.low < w.high <= top + 1,
            w.high == top + 1 || (w.high - w.low) % 2 == 0,
            w.base as int == prime_count(w.low - 1) - prime_count(low0 - 1),
            j < n ==> w.low <= ts@[j as int],
            j <= n,
            acc as int == pi_offset_sum(ts@.take(j as int), base as int, lo as int),
            acc as int <= j * 0x2_0000_0000_0000_0000,
        decreases n - j,
    {
        let t = ts[j];
        assert(t <= top) by {
            assert(ts@[j as int] <= ts@[n - 1]);
        }
        while t >= w.high
            invariant
                t <= top,
                w.low <= t,
                1 <= low0,
                low0 % 2 == 1,
                top <= THRESHOLD_LIMIT,
                is_floor_sqrt(top as int, r_top as int),
                crate::primality::primes_up_to(bp@, r_top as int),
                sorted(bp@),
                w.valid(),
                w.sieved_with@ == bp@,
                w.low % 2 == 1,
                low0 <= w.low < w.high <= top + 1,
                w.high == top + 1 || (w.high - w.low) % 2 == 0,
                w.base as int == prime_count(w.low - 1) - prime_count(low0 - 1),
            decreases top + 1 - w.low,
        {
            let next_low = w.high;
            proof {
                lemma_base_covers(bp@, top as int, r_top as int, w.high as int);
                lemma_window_pi_offset(w.low as int, w.high as int, w.base as int, bp@, w.high - 1);
                lemma_prime_count_monotone(low0 - 1, w.high - 1);
                lemma_prime_count_bound(w.high - 1);
                assert(w.high != top + 1);
            }
            let next_base = w.pi(next_low - 1);
            let next_high = min_u64(next_low + SEGMENT_Q, top + 1);
            proof {
                lemma_base_covers(bp@, top as int, r_top as int, next_high as int);
            }
            w = QuotientWindow::sieve(next_low, next_high, &bp, next_base);
        }
        proof {
            lemma_base_covers(bp@, top as int, r_top as int, w.high as int);
            lemma_window_pi_offset(w.low as int, w.high as int, w.base as int, bp@, t as int);
            lemma_prime_count_monotone(lo - 1, t as int);
            lemma_prime_count_bound(t as int);
        }
        let c = w.pi(t) - adjust;
        proof {
            let s = ts@.take(j as int + 1);
            assert(s.drop_last() =~= ts@.take(j as int));
            assert(s.last() == t);
            assert(prime_count(t as int) <= t);
        }
        acc = acc + base as u128 + c as u128;
        j += 1;
        proof {
            if j < n {
                assert(ts@[j - 1] <= ts@[j as int]);
            }
        }
    }
    assert(ts@.take(n as int) =~= ts@);
    acc
}

} // verus!
