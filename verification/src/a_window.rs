//! The A leaves by quotient windows: the leaves pi(x / (p q)) whose quotient
//! lies in a window [low, high) of quotient space, so that the A sum is
//! the sum over windows that tile [1, x / x_star^2].
use vstd::prelude::*;
use crate::ac_parallel_v2::{
    a_single_b_sum, a_formula_sum, weighted_quotient_pi, QuotientWindow, covers_window, lemma_window_pi_is_prime_count,
};
use crate::leaf_sums::{
    range_sum, lemma_range_sum_add, lemma_range_sum_const, lemma_range_sum_split, lemma_range_sum_nonneg_bound,
};
use crate::magic_reciprocal::FastDiv64;
use crate::pi_table::PiTable;
use crate::primality::{
    count_le, prime_count, prime_list, sorted, strip_sentinel, lemma_count_le_partition, lemma_partition_exists,
    lemma_prime_list_count_min, lemma_prime_list_sorted, lemma_prime_count_monotone, lemma_prime_count_bound,
};
use crate::roots::{floor_sqrt, floor_cbrt, lemma_floor_roots_exist, isqrt, icbrt};
use crate::sigma_l1::get_x_star_gourdon;
use crate::intmath::{min_spec, max_spec, min_u64, max_u64, min_usize, max_usize};
use crate::sigma_l1::x_star_spec;
use vstd::arithmetic::div_mod::{lemma_div_denominator, lemma_div_is_ordered_by_denominator, lemma_fundamental_div_mod};

verus! {

/// w * pi(xp / s[i]) when the quotient xp / s[i] lies in [low, high), else 0.
pub open spec fn window_quotient_pi(xp: int, s: Seq<u64>, w: int, low: int, high: int) -> spec_fn(int) -> int {
    |i: int|
        if low <= xp / (s[i] as int) < high {
            w * prime_count(xp / (s[i] as int))
        } else {
            0
        }
}

/// The A leaves of the prime p = s[b] whose quotient x / (p q) lies in
/// [low, high).
pub open spec fn a_b_window_sum(x: int, y: int, s: Seq<u64>, b: int, low: int, high: int) -> int {
    let p = s[b] as int;
    let xp = x / p;
    let sq = floor_sqrt(xp);
    if p < 2 || p >= sq {
        0
    } else {
        let i0 = count_le(s, p) as int;
        let m1 = count_le(s, min_spec(xp / y, sq)) as int;
        let m2 = count_le(s, sq) as int;
        range_sum(i0, m1, window_quotient_pi(xp, s, 1, low, high)) + range_sum(
            max_spec(i0, m1),
            m2,
            window_quotient_pi(xp, s, 2, low, high),
        )
    }
}

/// The A leaves of the primes x_star < p <= cbrt(x) of `s` whose quotient
/// lies in [low, high).
pub open spec fn a_window_total(x: int, y: int, s: Seq<u64>, low: int, high: int) -> int {
    range_sum(
        count_le(s, x_star_spec(x, y)) as int,
        count_le(s, floor_cbrt(x)) as int,
        |b: int| a_b_window_sum(x, y, s, b, low, high),
    )
}

/// Two adjacent windows hold the leaves of their union, for each prime.
proof fn lemma_a_b_windows_add(x: int, y: int, s: Seq<u64>, b: int, low: int, mid: int, high: int)
    requires
        low <= mid <= high,
    ensures
        a_b_window_sum(x, y, s, b, low, mid) + a_b_window_sum(x, y, s, b, mid, high) == a_b_window_sum(
            x,
            y,
            s,
            b,
            low,
            high,
        ),
{
    let p = s[b] as int;
    let xp = x / p;
    let sq = floor_sqrt(xp);
    if !(p < 2 || p >= sq) {
        let i0 = count_le(s, p) as int;
        let m1 = count_le(s, min_spec(xp / y, sq)) as int;
        let m2 = count_le(s, sq) as int;
        lemma_range_sum_add(
            i0,
            m1,
            window_quotient_pi(xp, s, 1, low, mid),
            window_quotient_pi(xp, s, 1, mid, high),
            window_quotient_pi(xp, s, 1, low, high),
        );
        lemma_range_sum_add(
            max_spec(i0, m1),
            m2,
            window_quotient_pi(xp, s, 2, low, mid),
            window_quotient_pi(xp, s, 2, mid, high),
            window_quotient_pi(xp, s, 2, low, high),
        );
    }
}

/// Windows add up: the A leaves with quotient in [low, mid) and those in
/// [mid, high) together are those in [low, high).
pub proof fn lemma_a_windows_add(x: int, y: int, s: Seq<u64>, low: int, mid: int, high: int)
    requires
        low <= mid <= high,
    ensures
        a_window_total(x, y, s, low, mid) + a_window_total(x, y, s, mid, high) == a_window_total(x, y, s, low, high),
{
    let lo = count_le(s, x_star_spec(x, y)) as int;
    let hi = count_le(s, floor_cbrt(x)) as int;
    let f = |b: int| a_b_window_sum(x, y, s, b, low, mid);
    let g = |b: int| a_b_window_sum(x, y, s, b, mid, high);
    let h = |b: int| a_b_window_sum(x, y, s, b, low, high);
    assert forall|b: int| lo <= b < hi implies #[trigger] h(b) == f(b) + g(b) by {
        lemma_a_b_windows_add(x, y, s, b, low, mid, high);
    }
    lemma_range_sum_add(lo, hi, f, g, h);
}

/// Entries below count_le(s, v) are at most v; from there on they exceed v.
proof fn lemma_count_le_split(s: Seq<u64>, v: int)
    requires
        sorted(s),
    ensures
        forall|i: int| 0 <= i < count_le(s, v) ==> #[trigger] s[i] as int <= v,
        forall|i: int| count_le(s, v) <= i < s.len() ==> #[trigger] s[i] as int > v,
{
    let r = lemma_partition_exists(s, v);
    lemma_count_le_partition(s, v, r);
}

/// Every A leaf of a prime of the A range has its quotient in
/// [1, x / x_star^2], so one window [1, x / x_star^2 + 1) holds them all.
proof fn lemma_a_b_whole_window(x: int, y: int, s: Seq<u64>, b: int, qmax: int)
    requires
        sorted(s),
        x >= 1,
        0 <= b < s.len(),
        s[b] > x_star_spec(x, y),
        x_star_spec(x, y) >= 1,
        qmax == x / (x_star_spec(x, y) * x_star_spec(x, y)),
    ensures
        a_b_window_sum(x, y, s, b, 1, qmax + 1) == a_single_b_sum(x, y, s, b),
{
    let p = s[b] as int;
    let xs = x_star_spec(x, y);
    let xp = x / p;
    lemma_floor_roots_exist(xp);
    let sq = floor_sqrt(xp);
    if !(p < 2 || p >= sq) {
        let i0 = count_le(s, p) as int;
        let m2 = count_le(s, sq) as int;
        lemma_count_le_split(s, p);
        lemma_count_le_split(s, sq);
        crate::primality::lemma_count_le_bound(s, sq);
        assert forall|i: int| i0 <= i < m2 implies 1 <= #[trigger] (xp / (s[i] as int)) <= qmax by {
            let q = s[i] as int;
            assert(p < q <= sq);
            lemma_div_denominator(x, p, q);
            assert(1 <= xp / q) by (nonlinear_arith)
                requires
                    2 <= q <= sq,
                    sq * sq <= xp,
            {
                lemma_fundamental_div_mod(xp, q);
            }
            assert(xs * xs <= p * q) by (nonlinear_arith)
                requires
                    1 <= xs < p < q,
            ;
            assert(xs * xs >= 1) by (nonlinear_arith)
                requires
                    xs >= 1,
            ;
            lemma_div_is_ordered_by_denominator(x, xs * xs, p * q);
        }
        let m1 = count_le(s, min_spec(xp / y, sq)) as int;
        let zero = |i: int| 0int;
        let w1 = window_quotient_pi(xp, s, 1, 1, qmax + 1);
        let w2 = window_quotient_pi(xp, s, 2, 1, qmax + 1);
        let f1 = weighted_quotient_pi(xp, s, 1);
        let f2 = weighted_quotient_pi(xp, s, 2);
        lemma_count_le_monotone(s, min_spec(xp / y, sq), sq);
        assert forall|i: int| i0 <= i < m1 implies #[trigger] w1(i) == f1(i) + zero(i) by {
            assert(1 <= xp / (s[i] as int) <= qmax);
        }
        assert forall|i: int| max_spec(i0, m1) <= i < m2 implies #[trigger] w2(i) == f2(i) + zero(i) by {
            assert(1 <= xp / (s[i] as int) <= qmax);
        }
        lemma_range_sum_add(i0, m1, f1, zero, w1);
        lemma_range_sum_add(max_spec(i0, m1), m2, f2, zero, w2);
        if i0 <= m1 {
            lemma_range_sum_const(i0, m1, zero, 0);
        }
        if max_spec(i0, m1) <= m2 {
            lemma_range_sum_const(max_spec(i0, m1), m2, zero, 0);
        }
    }
}

/// count_le is monotone in its bound.
proof fn lemma_count_le_monotone(s: Seq<u64>, u: int, v: int)
    requires
        u <= v,
    ensures
        count_le(s, u) <= count_le(s, v),
    decreases s.len(),
{
    if s.len() > 0 {
        lemma_count_le_monotone(s.drop_last(), u, v);
    }
}

/// The whole quotient range in one window gives A itself: the A leaves
/// with quotient in [1, x / x_star^2] are all the A leaves.
pub proof fn lemma_a_whole_window(x: int, y: int, primes: Seq<u64>)
    requires
        sorted(strip_sentinel(primes)),
        x >= 1,
    ensures
        a_window_total(
            x,
            y,
            strip_sentinel(primes),
            1,
            x / (x_star_spec(x, y) * x_star_spec(x, y)) + 1,
        ) == a_formula_sum(x, y, primes),
{
    let s = strip_sentinel(primes);
    let xs = x_star_spec(x, y);
    let qmax = x / (xs * xs);
    let lo = count_le(s, xs) as int;
    let hi = count_le(s, floor_cbrt(x)) as int;
    let f = |b: int| a_single_b_sum(x, y, s, b);
    let h = |b: int| a_b_window_sum(x, y, s, b, 1, qmax + 1);
    let zero = |b: int| 0int;
    lemma_count_le_split(s, xs);
    crate::primality::lemma_count_le_bound(s, floor_cbrt(x));
    assert forall|b: int| lo <= b < hi implies #[trigger] h(b) == f(b) + zero(b) by {
        lemma_a_b_whole_window(x, y, s, b, qmax);
    }
    lemma_range_sum_add(lo, hi, f, zero, h);
    if lo <= hi {
        lemma_range_sum_const(lo, hi, zero, 0);
    }
}

/// A sum over [lo, hi) of f, where f is g on [a, b) and 0 elsewhere, is
/// the sum of g over [a, b).
proof fn lemma_range_sum_restrict(lo: int, hi: int, a: int, b: int, f: spec_fn(int) -> int, g: spec_fn(int) -> int)
    requires
        lo <= hi,
        a < b ==> lo <= a && b <= hi,
        forall|i: int| lo <= i < hi ==> #[trigger] f(i) == if a <= i < b { g(i) } else { 0 },
    ensures
        range_sum(lo, hi, f) == range_sum(a, b, g),
{
    let zero = |i: int| 0int;
    if a < b {
        lemma_range_sum_split(lo, a, hi, f);
        lemma_range_sum_split(a, b, hi, f);
        assert forall|i: int| lo <= i < a implies #[trigger] f(i) == 0 by {}
        assert forall|i: int| b <= i < hi implies #[trigger] f(i) == 0 by {}
        lemma_range_sum_const(lo, a, f, 0);
        lemma_range_sum_const(b, hi, f, 0);
        assert forall|i: int| a <= i < b implies #[trigger] f(i) == g(i) + zero(i) by {}
        lemma_range_sum_add(a, b, g, zero, f);
        lemma_range_sum_const(a, b, zero, 0);
    } else {
        assert forall|i: int| lo <= i < hi implies #[trigger] f(i) == 0 by {}
        lemma_range_sum_const(lo, hi, f, 0);
    }
}

/// floor(a / q) >= n exactly when a >= n q.
proof fn lemma_quotient_at_least(a: int, q: int, n: int)
    requires
        a >= 0,
        q >= 1,
        n >= 0,
    ensures
        a / q >= n <==> a >= n * q,
{
    lemma_fundamental_div_mod(a, q);
    if a / q >= n {
        assert(a >= n * q) by (nonlinear_arith)
            requires
                a == q * (a / q) + a % q,
                a % q >= 0,
                a / q >= n,
                q >= 1,
                n >= 0,
        ;
    }
    if a >= n * q {
        assert(a / q >= n) by (nonlinear_arith)
            requires
                a == q * (a / q) + a % q,
                a % q < q,
                a >= n * q,
                q >= 1,
        ;
    }
}

/// The quotient (x / p) / q lies in [low, high) exactly when
/// (x / high) / p < q <= (x / low) / p.
proof fn lemma_window_indicator(x: int, p: int, q: int, low: int, high: int)
    requires
        x >= 0,
        p >= 1,
        q >= 1,
        1 <= low,
        1 <= high,
    ensures
        (low <= (x / p) / q && (x / p) / q < high) <==> ((x / high) / p < q && q <= (x / low) / p),
{
    let xp = x / p;
    lemma_div_is_ordered_by_denominator(x, 1, p);
    lemma_quotient_at_least(xp, q, low);
    lemma_quotient_at_least(xp, low, q);
    lemma_quotient_at_least(xp, q, high);
    lemma_quotient_at_least(xp, high, q);
    assert(low * q == q * low && high * q == q * high) by (nonlinear_arith);
    lemma_div_denominator(x, p, low);
    lemma_div_denominator(x, low, p);
    lemma_div_denominator(x, p, high);
    lemma_div_denominator(x, high, p);
    assert(p * low == low * p && p * high == high * p) by (nonlinear_arith);
}

/// In a strictly ordered list, s[b] has exactly b + 1 entries up to it.
proof fn lemma_count_le_at(s: Seq<u64>, b: int)
    requires
        prime_list(s),
        0 <= b < s.len(),
    ensures
        count_le(s, s[b] as int) == b + 1,
{
    lemma_prime_list_sorted(s);
    assert(crate::primality::is_partition_point(s, s[b] as int, b + 1)) by {
        assert forall|i: int| 0 <= i < b + 1 implies #[trigger] s[i] as int <= s[b] as int by {
            if i < b {
                assert(s[i] < s[b]);
            }
        }
        assert forall|i: int| b + 1 <= i < s.len() implies #[trigger] s[i] as int > s[b] as int by {
            assert(s[b] < s[i]);
        }
    }
    lemma_count_le_partition(s, s[b] as int, b + 1);
}

/// The A leaves of the prime p = s[b] whose quotient lies in the window
/// [low, high): the primes q with max(p, x_high / p) < q <= min(x_low / p,
/// sqrt(x / p)), where x_low = x / low and x_high = x / high, taken once
/// while q <= x / (p y) and twice above, with pi read from the window.
#[verifier::spinoff_prover]
#[verifier::rlimit(60)]
fn a_b_window_leaves(
    x: u64,
    y: u64,
    b: usize,
    xlow: u64,
    xhigh: u64,
    s: &[u64],
    rec: &[FastDiv64],
    count_table: &PiTable,
    window: &QuotientWindow,
) -> (r: i64)
    requires
        prime_list(s@),
        b < s@.len(),
        y >= 1,
        window.valid(),
        window.low >= 1,
        window.base == prime_count(window.low - 1),
        covers_window(window.sieved_with@, window.high as int),
        xlow == x / window.low,
        xhigh == x / window.high,
        count_table.valid(),
        s@[b as int] <= count_table.max_y,
        floor_sqrt(x as int / s@[b as int] as int) <= count_table.max_y,
        prime_count(floor_sqrt(x as int / s@[b as int] as int)) <= s@.len(),
        s@.len() <= rec@.len(),
        forall|i: int| 0 <= i < s@.len() ==> (#[trigger] rec@[i]).divisor == s@[i] && rec@[i].max_n >= x,
        a_b_window_sum(x as int, y as int, s@, b as int, window.low as int, window.high as int) <= i64::MAX,
    ensures
        r == a_b_window_sum(x as int, y as int, s@, b as int, window.low as int, window.high as int),
{
    let ghost ss = s@;
    let ghost low = window.low as int;
    let ghost high = window.high as int;
    let p = s[b];
    if p < 2 {
        return 0;
    }
    let xp = x / p;
    let sqrt_xp = isqrt(xp);
    let ghost sq = sqrt_xp as int;
    let ghost aa = xhigh as int / p as int;
    let ghost bb = xlow as int / p as int;
    let len = s.len();
    proof {
        lemma_prime_list_sorted(ss);
        assert(sorted(ss)) by {
            assert forall|i: int, j: int| 0 <= i <= j < ss.len() implies #[trigger] ss[i] <= #[trigger] ss[j] by {
                if i < j {
                    assert(ss[i] < ss[j]);
                }
            }
        }
        lemma_count_le_at(ss, b as int);
        lemma_div_is_ordered_by_denominator(x as int, 1, p as int);
        lemma_floor_roots_exist(xp as int);
    }
    let min_2nd = min_u64(xhigh / p, sqrt_xp);
    let max_2nd = min_u64(xlow / p, sqrt_xp);
    proof {
        lemma_prime_count_bound(max_spec(p as int, min_2nd as int));
        lemma_prime_count_bound(min_spec(xp as int / y as int, max_2nd as int));
        lemma_prime_count_bound(max_2nd as int);
    }
    let j0 = count_table.pi(max_u64(p, min_2nd)) as usize;
    let e1 = count_table.pi(min_u64(xp / y, max_2nd)) as usize;
    let e2 = count_table.pi(max_2nd) as usize;
    let start = max_usize(j0, b + 1);
    let end1 = min_usize(e1, len);
    let end2 = min_usize(e2, len);
    let ghost i0 = b + 1;
    let ghost m1 = count_le(ss, min_spec(xp as int / y as int, sq)) as int;
    let ghost m2 = count_le(ss, sq) as int;
    let ghost start2 = max_spec(start as int, end1 as int);
    let ghost g1 = |i: int| prime_count(xp as int / (ss[i] as int)) as int;
    let ghost g2 = |i: int| 2int * prime_count(xp as int / (ss[i] as int));
    let ghost w1 = window_quotient_pi(xp as int, ss, 1, low, high);
    let ghost w2 = window_quotient_pi(xp as int, ss, 2, low, high);
    proof {
        lemma_count_le_split(ss, sq);
        lemma_count_le_split(ss, p as int);
        lemma_count_le_split(ss, aa);
        lemma_count_le_split(ss, bb);
        lemma_count_le_split(ss, xp as int / y as int);
        lemma_count_le_split(ss, min_spec(aa, sq));
        lemma_count_le_split(ss, min_spec(bb, sq));
        lemma_count_le_split(ss, min_spec(xp as int / y as int, sq));
        lemma_count_le_split(ss, min_spec(xp as int / y as int, min_spec(bb, sq)));
        lemma_count_le_split(ss, max_spec(p as int, min_spec(aa, sq)));
        lemma_prime_list_count_min(ss, max_spec(p as int, min_spec(aa, sq)));
        lemma_prime_list_count_min(ss, min_spec(xp as int / y as int, min_spec(bb, sq)));
        lemma_prime_list_count_min(ss, min_spec(bb, sq));
        crate::primality::lemma_count_le_bound(ss, sq);
        assert(j0 == count_le(ss, max_spec(p as int, min_spec(aa, sq))) || j0 > len);
        assert(e1 >= len ==> end1 == len);
        assert(end1 == count_le(ss, min_spec(xp as int / y as int, min_spec(bb, sq))));
        assert(end2 == count_le(ss, min_spec(bb, sq)));
        lemma_count_le_monotone(ss, min_spec(xp as int / y as int, min_spec(bb, sq)), min_spec(bb, sq));
        lemma_count_le_monotone(ss, min_spec(xp as int / y as int, min_spec(bb, sq)), min_spec(xp as int / y as int, sq));
        lemma_count_le_monotone(ss, min_spec(bb, sq), sq);
        lemma_count_le_monotone(ss, min_spec(xp as int / y as int, sq), sq);
        assert(end1 <= end2 && end1 <= m1 && end2 <= m2);
        // Every index the loops visit holds a leaf whose quotient lies in the window.
        assert forall|k: int| start <= k < end2 implies low <= #[trigger] (xp as int / (ss[k] as int)) < high by {
            let q = ss[k] as int;
            assert(q > p && q > min_spec(aa, sq) && q <= min_spec(bb, sq));
            lemma_window_indicator(x as int, p as int, q, low, high);
        }
    }
    let ghost total = a_b_window_sum(x as int, y as int, ss, b as int, low, high);
    let ghost t1 = range_sum(start as int, end1 as int, g1);
    let ghost t2 = range_sum(start2, end2 as int, g2);
    proof {
        if p as int >= sq {
            assert(start >= end2);
            assert(t1 == 0 && t2 == 0);
        } else {
            if m1 < i0 {
                assert(start >= end1);
                assert(range_sum(i0, m1, w1) == 0);
                assert(t1 == 0);
            } else {
                assert forall|i: int| i0 <= i < m1 implies #[trigger] w1(i) == if start <= i < end1 {
                    g1(i)
                } else {
                    0
                } by {
                    let q = ss[i] as int;
                    assert(q > p && q <= min_spec(xp as int / y as int, sq));
                    lemma_window_indicator(x as int, p as int, q, low, high);
                }
                lemma_range_sum_restrict(i0, m1, start as int, end1 as int, w1, g1);
            }
            if xp as int / y as int >= min_spec(bb, sq) {
                assert(end1 == end2);
            } else {
                assert(end1 == m1);
            }
            assert forall|i: int| max_spec(i0, m1) <= i < m2 implies #[trigger] w2(i) == if start2 <= i < end2 {
                g2(i)
            } else {
                0
            } by {
                let q = ss[i] as int;
                assert(q > p && q > min_spec(xp as int / y as int, sq) && q <= sq);
                lemma_window_indicator(x as int, p as int, q, low, high);
            }
            lemma_range_sum_restrict(max_spec(i0, m1), m2, start2, end2 as int, w2, g2);
        }
        assert(total == t1 + t2);
        if start < end1 {
            lemma_range_sum_nonneg_bound(start as int, start as int, end1 as int, g1);
        }
        if start2 < end2 {
            lemma_range_sum_nonneg_bound(start2, start2, end2 as int, g2);
        }
    }
    let mut sum: i64 = 0;
    let mut j = start;
    while j < end1
        invariant
            ss == s@,
            prime_list(ss),
            window.valid(),
            window.low >= 1,
            low == window.low,
            high == window.high,
            window.base == prime_count(window.low - 1),
            covers_window(window.sieved_with@, window.high as int),
            g1 == (|i: int| prime_count(xp as int / (ss[i] as int)) as int),
            end1 <= len,
            len == ss.len(),
            ss.len() <= rec@.len(),
            forall|i: int| 0 <= i < ss.len() ==> (#[trigger] rec@[i]).divisor == ss[i] && rec@[i].max_n >= x,
            forall|k: int| start <= k < end2 ==> low <= #[trigger] (xp as int / (ss[k] as int)) < high,
            end1 <= end2,
            xp <= x,
            start <= j,
            start < end1 ==> j <= end1,
            start >= end1 ==> j == start,
            t1 == range_sum(start as int, end1 as int, g1),
            t1 + t2 <= i64::MAX,
            t2 >= 0,
            start < end1 ==> 0 <= range_sum(start as int, j as int, g1) <= t1,
            sum == range_sum(start as int, j as int, g1),
        decreases end1 - j,
    {
        proof {
            lemma_range_sum_nonneg_bound(start as int, j + 1, end1 as int, g1);
            assert(crate::primality::is_prime(ss[j as int] as int));
        }
        let xpq = rec[j].div(xp);
        proof {
            lemma_window_pi_is_prime_count(low, high, window.base as int, window.sieved_with@, xpq as int);
        }
        sum = sum + window.pi(xpq) as i64;
        j += 1;
    }
    j = max_usize(j, end1);
    assert(j == start2);
    while j < end2
        invariant
            ss == s@,
            prime_list(ss),
            window.valid(),
            window.low >= 1,
            low == window.low,
            high == window.high,
            window.base == prime_count(window.low - 1),
            covers_window(window.sieved_with@, window.high as int),
            g2 == (|i: int| 2int * prime_count(xp as int / (ss[i] as int))),
            end2 <= len,
            len == ss.len(),
            ss.len() <= rec@.len(),
            forall|i: int| 0 <= i < ss.len() ==> (#[trigger] rec@[i]).divisor == ss[i] && rec@[i].max_n >= x,
            forall|k: int| start <= k < end2 ==> low <= #[trigger] (xp as int / (ss[k] as int)) < high,
            xp <= x,
            start <= start2 <= j,
            start2 < end2 ==> j <= end2,
            start2 >= end2 ==> j == start2,
            t2 == range_sum(start2, end2 as int, g2),
            t1 + t2 <= i64::MAX,
            t1 >= 0,
            start2 < end2 ==> 0 <= range_sum(start2, j as int, g2) <= t2,
            sum == t1 + range_sum(start2, j as int, g2),
        decreases end2 - j,
    {
        proof {
            lemma_range_sum_nonneg_bound(start2, j + 1, end2 as int, g2);
            assert(crate::primality::is_prime(ss[j as int] as int));
        }
        let xpq = rec[j].div(xp);
        proof {
            lemma_window_pi_is_prime_count(low, high, window.base as int, window.sieved_with@, xpq as int);
        }
        sum = sum + (window.pi(xpq) as i64) * 2;
        j += 1;
    }
    sum
}

/// A prime with p high^2 <= x has no leaf below high: every quotient
/// x / (p q) with q <= sqrt(x / p) is at least sqrt(x / p) >= high.
proof fn lemma_b_below_window(x: int, y: int, s: Seq<u64>, b: int, low: int, high: int)
    requires
        sorted(s),
        0 <= b < s.len(),
        s[b] >= 1,
        1 <= low <= high,
        (s[b] as int) * high * high <= x,
    ensures
        a_b_window_sum(x, y, s, b, low, high) == 0,
{
    let p = s[b] as int;
    let xp = x / p;
    lemma_floor_roots_exist(xp);
    let sq = floor_sqrt(xp);
    if !(p < 2 || p >= sq) {
        let i0 = count_le(s, p) as int;
        let m1 = count_le(s, min_spec(xp / y, sq)) as int;
        let m2 = count_le(s, sq) as int;
        lemma_count_le_split(s, sq);
        lemma_count_le_split(s, p);
        lemma_quotient_at_least(x, p, high * high);
        assert(high * high * p == p * high * high) by (nonlinear_arith);
        assert(high <= sq) by (nonlinear_arith)
            requires
                high * high <= xp,
                sq >= 0,
                xp < (sq + 1) * (sq + 1),
                high >= 1,
        ;
        let w1 = window_quotient_pi(xp, s, 1, low, high);
        let w2 = window_quotient_pi(xp, s, 2, low, high);
        crate::primality::lemma_count_le_bound(s, sq);
        assert forall|i: int| i0 <= i < m2 implies #[trigger] (xp / (s[i] as int)) >= high by {
            let q = s[i] as int;
            assert(p < q <= sq);
            lemma_div_is_ordered_by_denominator(xp, q, sq);
            lemma_quotient_at_least(xp, sq, sq);
        }
        lemma_count_le_monotone(s, min_spec(xp / y, sq), sq);
        if i0 <= m1 {
            assert forall|i: int| i0 <= i < m1 implies #[trigger] w1(i) == 0 by {
                assert(xp / (s[i] as int) >= high);
            }
            lemma_range_sum_const(i0, m1, w1, 0);
        }
        if max_spec(i0, m1) <= m2 {
            assert forall|i: int| max_spec(i0, m1) <= i < m2 implies #[trigger] w2(i) == 0 by {
                assert(xp / (s[i] as int) >= high);
            }
            lemma_range_sum_const(max_spec(i0, m1), m2, w2, 0);
        }
    }
}

/// A prime with x < low p^2 has no leaf from low on: every quotient
/// x / (p q) with q > p is below x / p^2 < low.
proof fn lemma_b_above_window(x: int, y: int, s: Seq<u64>, b: int, low: int, high: int)
    requires
        sorted(s),
        0 <= b < s.len(),
        s[b] >= 1,
        1 <= low,
        x >= 0,
        x < low * (s[b] as int) * (s[b] as int),
    ensures
        a_b_window_sum(x, y, s, b, low, high) == 0,
{
    let p = s[b] as int;
    let xp = x / p;
    lemma_floor_roots_exist(xp);
    let sq = floor_sqrt(xp);
    if !(p < 2 || p >= sq) {
        let i0 = count_le(s, p) as int;
        let m1 = count_le(s, min_spec(xp / y, sq)) as int;
        let m2 = count_le(s, sq) as int;
        lemma_count_le_split(s, p);
        lemma_quotient_at_least(x, p, low * p);
        assert(low * p * p == (low * p) * p) by (nonlinear_arith);
        let w1 = window_quotient_pi(xp, s, 1, low, high);
        let w2 = window_quotient_pi(xp, s, 2, low, high);
        crate::primality::lemma_count_le_bound(s, sq);
        assert forall|i: int| i0 <= i < m2 implies #[trigger] (xp / (s[i] as int)) < low by {
            let q = s[i] as int;
            assert(p < q);
            lemma_div_is_ordered_by_denominator(x, 1, p);
            lemma_quotient_at_least(xp, q, low);
            assert(low * q > low * p) by (nonlinear_arith)
                requires
                    q > p,
                    low >= 1,
            ;
        }
        lemma_count_le_monotone(s, min_spec(xp / y, sq), sq);
        if i0 <= m1 {
            assert forall|i: int| i0 <= i < m1 implies #[trigger] w1(i) == 0 by {
                assert(xp / (s[i] as int) < low);
            }
            lemma_range_sum_const(i0, m1, w1, 0);
        }
        if max_spec(i0, m1) <= m2 {
            assert forall|i: int| max_spec(i0, m1) <= i < m2 implies #[trigger] w2(i) == 0 by {
                assert(xp / (s[i] as int) < low);
            }
            lemma_range_sum_const(max_spec(i0, m1), m2, w2, 0);
        }
    }
}

/// A window's A leaves of one prime are never negative.
proof fn lemma_a_b_window_nonneg(x: int, y: int, s: Seq<u64>, b: int, low: int, high: int)
    ensures
        a_b_window_sum(x, y, s, b, low, high) >= 0,
{
    let p = s[b] as int;
    let xp = x / p;
    let sq = floor_sqrt(xp);
    if !(p < 2 || p >= sq) {
        let i0 = count_le(s, p) as int;
        let m1 = count_le(s, min_spec(xp / y, sq)) as int;
        let m2 = count_le(s, sq) as int;
        let w1 = window_quotient_pi(xp, s, 1, low, high);
        let w2 = window_quotient_pi(xp, s, 2, low, high);
        if i0 <= m1 {
            assert forall|i: int| i0 <= i < m1 implies #[trigger] w1(i) >= 0 by {}
            lemma_range_sum_nonneg_bound(i0, m1, m1, w1);
        }
        if max_spec(i0, m1) <= m2 {
            assert forall|i: int| max_spec(i0, m1) <= i < m2 implies #[trigger] w2(i) >= 0 by {}
            lemma_range_sum_nonneg_bound(max_spec(i0, m1), m2, m2, w2);
        }
    }
}

/// What one window needs: the window odd-based within u64 and within the
/// count table, the cube root, x_star and the square roots sqrt(x / p) of
/// the A range within the table and covered by the list, and a prepared
/// divisor for every listed prime.
pub open spec fn a_window_domain(
    x: int,
    y: int,
    s: Seq<u64>,
    rec: Seq<FastDiv64>,
    low: int,
    high: int,
    max_y: int,
) -> bool {
    &&& prime_list(s)
    &&& y >= 1
    &&& 1 <= low < high
    &&& low % 2 == 1
    &&& high <= u64::MAX / 2
    &&& high - low < usize::MAX
    &&& high - 1 <= max_y
    &&& floor_cbrt(x) <= max_y
    &&& x_star_spec(x, y) <= max_y
    &&& s.len() <= rec.len()
    &&& forall|i: int| 0 <= i < s.len() ==> (#[trigger] rec[i]).divisor == s[i] && rec[i].max_n >= x
    &&& forall|b: int|
        count_le(s, x_star_spec(x, y)) <= b < count_le(s, floor_cbrt(x)) ==> floor_sqrt(x / (#[trigger] s[b] as int))
            <= max_y && prime_count(floor_sqrt(x / (s[b] as int))) <= s.len()
}

/// The A leaves whose quotient x / (p q) lies in the window [low, high):
/// the window is sieved once, and only the primes p whose leaves can reach
/// it are visited, from x_star and (x / high) / high up to
/// sqrt(x / low) and cbrt(x).
pub fn a_window_leaves(
    x: u64,
    y: u64,
    low: u64,
    high: u64,
    s: &[u64],
    sieve_primes: &[u64],
    rec: &[FastDiv64],
    count_table: &PiTable,
) -> (r: i64)
    requires
        count_table.valid(),
        a_window_domain(x as int, y as int, s@, rec@, low as int, high as int, count_table.max_y as int),
        sorted(sieve_primes@),
        covers_window(sieve_primes@, high as int),
        a_window_total(x as int, y as int, s@, low as int, high as int) <= i64::MAX,
    ensures
        r == a_window_total(x as int, y as int, s@, low as int, high as int),
{
    let ghost ss = s@;
    let ghost f = |b: int| a_b_window_sum(x as int, y as int, ss, b, low as int, high as int);
    let x13 = icbrt(x);
    let x_star = get_x_star_gourdon(x, y);
    let xlow = x / low;
    let xhigh = x / high;
    let sqrt_xlow = isqrt(xlow);
    proof {
        lemma_prime_count_bound(min_spec(sqrt_xlow as int, x13 as int));
        lemma_prime_count_bound(max_spec(x_star as int, min_spec(xhigh as int / high as int, x13 as int)));
    }
    let max_a_end = count_table.pi(min_u64(sqrt_xlow, x13)) as usize;
    let min_a_start = count_table.pi(max_u64(x_star, min_u64(xhigh / high, x13))) as usize;
    let len = s.len();
    let bend = min_usize(max_a_end, len);
    let ghost g0 = count_le(ss, x_star as int) as int;
    let ghost g1 = count_le(ss, x13 as int) as int;
    proof {
        lemma_prime_list_sorted(ss);
        assert(sorted(ss)) by {
            assert forall|i: int, j: int| 0 <= i <= j < ss.len() implies #[trigger] ss[i] <= #[trigger] ss[j] by {
                if i < j {
                    assert(ss[i] < ss[j]);
                }
            }
        }
        lemma_count_le_split(ss, x_star as int);
        lemma_count_le_split(ss, x13 as int);
        lemma_count_le_split(ss, min_spec(sqrt_xlow as int, x13 as int));
        lemma_prime_list_count_min(ss, min_spec(sqrt_xlow as int, x13 as int));
        lemma_prime_list_count_min(ss, x_star as int);
        lemma_prime_count_monotone(x_star as int, max_spec(x_star as int, min_spec(xhigh as int / high as int, x13 as int)));
        lemma_count_le_monotone(ss, min_spec(sqrt_xlow as int, x13 as int), x13 as int);
        crate::primality::lemma_count_le_bound(ss, x13 as int);
        assert(g0 <= min_a_start && bend <= g1);
        assert forall|b: int| g0 <= b < g1 && !(min_a_start <= b < bend) implies #[trigger] f(b) == 0 by {
            let p = ss[b] as int;
            assert(p > x_star);
            assert(p <= x13);
            if b < min_a_start {
                let w = max_spec(x_star as int, min_spec(xhigh as int / high as int, x13 as int));
                crate::primality::lemma_prime_list_index(ss, b, w);
                assert(p <= xhigh as int / high as int);
                lemma_quotient_at_least(xhigh as int, high as int, p);
                lemma_quotient_at_least(x as int, high as int, p * high);
                lemma_b_below_window(x as int, y as int, ss, b, low as int, high as int);
            } else {
                assert(p > sqrt_xlow);
                lemma_floor_roots_exist(xlow as int);
                lemma_fundamental_div_mod(x as int, low as int);
                assert(x < low * p * p) by (nonlinear_arith)
                    requires
                        p >= sqrt_xlow + 1,
                        xlow < (sqrt_xlow + 1) * (sqrt_xlow + 1),
                        x == low * xlow + x % low,
                        x % low < low,
                        low >= 1,
                        sqrt_xlow >= 0,
                ;
                lemma_b_above_window(x as int, y as int, ss, b, low as int, high as int);
            }
        }
        assert forall|b: int| g0 <= b < g1 implies #[trigger] f(b) >= 0 by {
            lemma_a_b_window_nonneg(x as int, y as int, ss, b, low as int, high as int);
        }
        if g0 <= g1 {
            lemma_range_sum_restrict(g0, g1, min_a_start as int, bend as int, f, f);
            if min_a_start < bend {
                lemma_range_sum_nonneg_bound(min_a_start as int, min_a_start as int, bend as int, f);
            }
        } else {
            assert(a_window_total(x as int, y as int, ss, low as int, high as int) == 0);
        }
        assert(min_a_start >= bend ==> a_window_total(x as int, y as int, ss, low as int, high as int) == 0);
    }
    if min_a_start >= max_a_end {
        return 0;
    }
    let base = if low <= 1 {
        0
    } else {
        count_table.pi(low - 1)
    };
    proof {
        lemma_prime_count_bound(low - 1);
        if low <= 1 {
            assert(prime_count(0) == 0);
        }
    }
    let window = QuotientWindow::sieve(low, high, sieve_primes, base);
    let mut local: i64 = 0;
    let mut b = min_a_start;
    while b < bend
        invariant
            ss == s@,
            f == (|b: int| a_b_window_sum(x as int, y as int, ss, b, low as int, high as int)),
            count_table.valid(),
            a_window_domain(x as int, y as int, ss, rec@, low as int, high as int, count_table.max_y as int),
            window.valid(),
            window.low == low,
            window.high == high,
            window.base == prime_count(low - 1),
            window.sieved_with@ == sieve_primes@,
            covers_window(sieve_primes@, high as int),
            xlow == x / low,
            xhigh == x / high,
            x13 == floor_cbrt(x as int),
            x_star == x_star_spec(x as int, y as int),
            g0 == count_le(ss, x_star as int),
            g1 == count_le(ss, x13 as int),
            g0 <= min_a_start <= b,
            min_a_start < bend ==> b <= bend,
            min_a_start >= bend ==> b == min_a_start,
            bend <= g1,
            bend <= ss.len(),
            forall|k: int| 0 <= k < g1 ==> #[trigger] ss[k] as int <= x13,
            forall|k: int| min_a_start <= k < bend ==> #[trigger] f(k) >= 0,
            min_a_start < bend ==> range_sum(min_a_start as int, bend as int, f) == a_window_total(
                x as int,
                y as int,
                ss,
                low as int,
                high as int,
            ),
            a_window_total(x as int, y as int, ss, low as int, high as int) <= i64::MAX,
            min_a_start >= bend ==> a_window_total(x as int, y as int, ss, low as int, high as int) == 0,
            local == range_sum(min_a_start as int, b as int, f),
        decreases bend - b,
    {
        proof {
            lemma_range_sum_nonneg_bound(min_a_start as int, b + 1, bend as int, f);
            lemma_range_sum_nonneg_bound(min_a_start as int, b as int, bend as int, f);
            assert(ss[b as int] <= x13);
            assert(f(b as int) >= 0);
        }
        let part = a_b_window_leaves(x, y, b, xlow, xhigh, s, rec, count_table, &window);
        local = local + part;
        b += 1;
    }
    local
}

/// The A leaves of the consecutive windows [cuts[k], cuts[k + 1]) for
/// k < n, summed.
pub open spec fn windows_total(x: int, y: int, s: Seq<u64>, cuts: Seq<int>, n: int) -> int
    decreases n,
{
    if n <= 0 {
        0
    } else {
        windows_total(x, y, s, cuts, n - 1) + a_window_total(x, y, s, cuts[n - 1], cuts[n])
    }
}

/// Windows that tile [1, x / x_star^2] hold exactly the A leaves: for
/// ascending cuts from 1 to x / x_star^2 + 1, the window sums add up to A.
pub proof fn lemma_a_window_tiling(x: int, y: int, primes: Seq<u64>, cuts: Seq<int>)
    requires
        sorted(strip_sentinel(primes)),
        x >= 1,
        cuts.len() >= 1,
        cuts[0] == 1,
        cuts[cuts.len() - 1] == x / (x_star_spec(x, y) * x_star_spec(x, y)) + 1,
        forall|k: int| 0 <= k < cuts.len() - 1 ==> #[trigger] cuts[k] <= cuts[k + 1],
    ensures
        windows_total(x, y, strip_sentinel(primes), cuts, cuts.len() - 1) == a_formula_sum(x, y, primes),
{
    let s = strip_sentinel(primes);
    lemma_windows_prefix(x, y, s, cuts, cuts.len() - 1);
    lemma_a_whole_window(x, y, primes);
}

/// The first n windows together hold the leaves of [cuts[0], cuts[n]).
proof fn lemma_windows_prefix(x: int, y: int, s: Seq<u64>, cuts: Seq<int>, n: int)
    requires
        0 <= n < cuts.len(),
        forall|k: int| 0 <= k < cuts.len() - 1 ==> #[trigger] cuts[k] <= cuts[k + 1],
    ensures
        cuts[0] <= cuts[n],
        windows_total(x, y, s, cuts, n) == a_window_total(x, y, s, cuts[0], cuts[n]),
    decreases n,
{
    if n == 0 {
        let lo = count_le(s, x_star_spec(x, y)) as int;
        let hi = count_le(s, floor_cbrt(x)) as int;
        let f = |b: int| a_b_window_sum(x, y, s, b, cuts[0], cuts[0]);
        assert forall|b: int| lo <= b < hi implies #[trigger] f(b) == 0 by {
            lemma_a_b_windows_add(x, y, s, b, cuts[0], cuts[0], cuts[0]);
        }
        if lo <= hi {
            lemma_range_sum_const(lo, hi, f, 0);
        }
    } else {
        lemma_windows_prefix(x, y, s, cuts, n - 1);
        assert(cuts[n - 1] <= cuts[n]);
        lemma_a_windows_add(x, y, s, cuts[0], cuts[n - 1], cuts[n]);
    }
}

} // verus!
