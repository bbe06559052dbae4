//! Sums over primes and the closed forms the leaf engines rely on.
use vstd::prelude::*;
use crate::primality::{
    is_prime, prime_count, count_le, prime_list, lemma_prime_count_step, lemma_prime_count_monotone,
    lemma_prime_count_bound, lemma_prime_list_count, lemma_count_le_bound,
};
use vstd::arithmetic::div_mod::lemma_fundamental_div_mod;

verus! {

/// Sum of `f(p)` over the primes `p` with `lo < p <= hi`.
pub open spec fn prime_sum(lo: int, hi: int, f: spec_fn(int) -> int) -> int
    decreases hi - lo,
{
    if hi <= lo {
        0
    } else {
        prime_sum(lo, hi - 1, f) + if is_prime(hi) { f(hi) } else { 0 }
    }
}

/// `i0 + 1 + (i0 + 2) + ... + i1`.
pub open spec fn index_sum(i0: int, i1: int) -> int
    decreases i1 - i0,
{
    if i1 <= i0 {
        0
    } else {
        index_sum(i0, i1 - 1) + i1
    }
}

/// pi lookup that answers from an exact table up to `max_y` and by counting
/// the entries of `s` above it.
pub open spec fn table_or_slice_pi(max_y: int, s: Seq<u64>) -> spec_fn(int) -> int {
    |v: int| if v <= max_y { prime_count(v) as int } else { count_le(s, v) as int }
}

/// Weight of the leaf at prime `p`: pi(xm / p) - pi(p) + 1, with pi(xm / p)
/// taken from `piv`.
pub open spec fn ac_leaf(xm: int, piv: spec_fn(int) -> int) -> spec_fn(int) -> int {
    |p: int| piv(xm / p) - prime_count(p) as int + 1
}

/// Sum of the AC leaves pi(xm / p) - pi(p) + 1 over primes p in (lo, hi].
pub open spec fn ac_leaf_sum(xm: int, lo: int, hi: int, piv: spec_fn(int) -> int) -> int {
    prime_sum(lo, hi, ac_leaf(xm, piv))
}

/// The lookup answers pi exactly on [0, bound].
pub open spec fn lookup_exact_upto(max_y: int, s: Seq<u64>, bound: int) -> bool {
    bound <= max_y || (prime_list(s) && prime_count(bound) <= s.len())
}

/// Within its exact range the lookup gives pi itself.
pub proof fn lemma_lookup_exact(max_y: int, s: Seq<u64>, bound: int, w: int)
    requires
        lookup_exact_upto(max_y, s, bound),
        w <= bound,
    ensures
        table_or_slice_pi(max_y, s)(w) == prime_count(w),
{
    if w > max_y {
        lemma_prime_count_monotone(w, bound);
        lemma_prime_list_count(s, w);
    }
}

/// Lookup values lie in [0, max(v, len)].
pub proof fn lemma_lookup_range(max_y: int, s: Seq<u64>, v: int)
    requires
        v >= 0,
    ensures
        0 <= table_or_slice_pi(max_y, s)(v) <= v + s.len(),
{
    lemma_prime_count_bound(v);
    lemma_count_le_bound(s, v);
}

/// A prime sum splits at any middle point.
pub proof fn lemma_prime_sum_split(lo: int, mid: int, hi: int, f: spec_fn(int) -> int)
    requires
        lo <= mid <= hi,
    ensures
        prime_sum(lo, hi, f) == prime_sum(lo, mid, f) + prime_sum(mid, hi, f),
    decreases hi - mid,
{
    if mid < hi {
        lemma_prime_sum_split(lo, mid, hi - 1, f);
    }
}

/// 2 * (i0+1 + ... + i1) == (i0 + 1 + i1) * (i1 - i0).
pub proof fn lemma_index_sum_closed(i0: int, i1: int)
    requires
        i0 <= i1,
    ensures
        2 * index_sum(i0, i1) == (i0 + 1 + i1) * (i1 - i0),
    decreases i1 - i0,
{
    if i0 < i1 {
        let j = i1 - 1;
        lemma_index_sum_closed(i0, j);
        let s0 = index_sum(i0, j);
        assert(index_sum(i0, i1) == s0 + i1);
        assert(2 * s0 == (i0 + 1 + j) * (j - i0));
        assert((i0 + 1 + j) * (j - i0) + 2 * i1 == (i0 + 1 + i1) * (i1 - i0)) by (nonlinear_arith)
            requires
                j == i1 - 1,
        ;
    } else {
        assert((i0 + 1 + i1) * (i1 - i0) == 0) by (nonlinear_arith)
            requires
                i0 == i1,
        ;
    }
}

/// Shifting every index down by one takes one off each term.
pub proof fn lemma_index_sum_shift(i0: int, i1: int)
    requires
        i0 <= i1,
    ensures
        index_sum(i0 - 1, i1 - 1) + (i1 - i0) == index_sum(i0, i1),
    decreases i1 - i0,
{
    if i0 < i1 {
        lemma_index_sum_shift(i0, i1 - 1);
    }
}

/// Over an interval of primes sharing one weight `w - pi(p)`, the sum is
/// count * w minus the sum of the prime indices.
pub proof fn lemma_prime_sum_shared_weight(a: int, b: int, f: spec_fn(int) -> int, w: int)
    requires
        a <= b,
        forall|p: int| a < p <= b && is_prime(p) ==> #[trigger] f(p) == w - prime_count(p),
    ensures
        prime_sum(a, b, f) == (prime_count(b) - prime_count(a)) * w - index_sum(
            prime_count(a) as int,
            prime_count(b) as int,
        ),
    decreases b - a,
{
    if a < b {
        lemma_prime_sum_shared_weight(a, b - 1, f, w);
        lemma_prime_count_monotone(a, b - 1);
        if b >= 1 {
            lemma_prime_count_step(b);
        } else {
            assert(!is_prime(b));
        }
        let ca = prime_count(a) as int;
        let cb0 = prime_count(b - 1) as int;
        let cb = prime_count(b) as int;
        let c0 = cb0 - ca;
        let s0 = prime_sum(a, b - 1, f);
        assert(s0 == c0 * w - index_sum(ca, cb0));
        if is_prime(b) {
            assert(cb == cb0 + 1);
            assert(index_sum(ca, cb) == index_sum(ca, cb0) + cb);
            assert(prime_sum(a, b, f) == s0 + f(b));
            assert(f(b) == w - cb);
            assert((c0 + 1) * w == c0 * w + w) by (nonlinear_arith);
            assert(cb - ca == c0 + 1);
        } else {
            assert(cb == cb0);
            assert(prime_sum(a, b, f) == s0);
        }
    } else {
        assert((prime_count(b) - prime_count(a)) * w == 0) by (nonlinear_arith)
            requires
                a == b,
        ;
    }
}

/// |prime_sum| <= (pi(hi) - pi(lo)) * m when every summand is within [-m, m].
pub proof fn lemma_prime_sum_bound(lo: int, hi: int, f: spec_fn(int) -> int, m: int)
    requires
        lo <= hi,
        m >= 0,
        forall|p: int| lo < p <= hi && is_prime(p) ==> -m <= #[trigger] f(p) <= m,
    ensures
        -(prime_count(hi) - prime_count(lo)) * m <= prime_sum(lo, hi, f) <= (prime_count(hi)
            - prime_count(lo)) * m,
        prime_count(lo) <= prime_count(hi),
    decreases hi - lo,
{
    lemma_prime_count_monotone(lo, hi);
    if lo < hi {
        lemma_prime_sum_bound(lo, hi - 1, f, m);
        if hi >= 1 {
            lemma_prime_count_step(hi);
        } else {
            assert(!is_prime(hi));
        }
        let c0 = prime_count(hi - 1) - prime_count(lo);
        let c1 = prime_count(hi) - prime_count(lo);
        let s0 = prime_sum(lo, hi - 1, f);
        let s1 = prime_sum(lo, hi, f);
        assert(-c0 * m <= s0 <= c0 * m);
        if is_prime(hi) {
            assert(c1 == c0 + 1);
            assert(s1 == s0 + f(hi));
            assert(-m <= f(hi) <= m);
            assert(-c1 * m <= s1 <= c1 * m) by (nonlinear_arith)
                requires
                    c1 == c0 + 1,
                    s1 == s0 + f(hi),
                    -m <= f(hi) <= m,
                    -c0 * m <= s0 <= c0 * m,
            ;
        } else {
            assert(c1 == c0);
            assert(s1 == s0);
        }
    } else {
        assert((prime_count(hi) - prime_count(lo)) * m == 0) by (nonlinear_arith)
            requires
                lo == hi,
        ;
    }
}

/// Sum of piv(x / s[i]) over indices i in [lo, hi).
pub open spec fn quotient_pi_sum(x: int, s: Seq<u64>, lo: int, hi: int, piv: spec_fn(int) -> int) -> int
    decreases hi - lo,
{
    if hi <= lo {
        0
    } else {
        quotient_pi_sum(x, s, lo, hi - 1, piv) + piv(x / s[hi - 1] as int)
    }
}

/// With counts that are never negative, a quotient sum bounds each of its
/// partial sums.
pub proof fn lemma_quotient_pi_sum_partial(x: int, s: Seq<u64>, lo: int, k: int, hi: int, piv: spec_fn(int) -> int)
    requires
        lo <= k <= hi,
        forall|v: int| #[trigger] piv(v) >= 0,
    ensures
        0 <= quotient_pi_sum(x, s, lo, k, piv) <= quotient_pi_sum(x, s, lo, hi, piv),
    decreases hi - lo,
{
    if k < hi {
        lemma_quotient_pi_sum_partial(x, s, lo, k, hi - 1, piv);
        assert(piv(x / s[hi - 1] as int) >= 0);
    } else if lo < k {
        lemma_quotient_pi_sum_partial(x, s, lo, k - 1, hi - 1, piv);
        assert(piv(x / s[hi - 1] as int) >= 0);
    }
}

/// Peeling the first index off a quotient sum.
pub proof fn lemma_quotient_pi_sum_prepend(x: int, s: Seq<u64>, lo: int, hi: int, piv: spec_fn(int) -> int)
    requires
        lo < hi,
    ensures
        quotient_pi_sum(x, s, lo, hi, piv) == piv(x / (s[lo] as int)) + quotient_pi_sum(x, s, lo + 1, hi, piv),
    decreases hi - lo,
{
    if lo + 1 < hi {
        lemma_quotient_pi_sum_prepend(x, s, lo, hi - 1, piv);
        assert(quotient_pi_sum(x, s, lo, hi, piv) == quotient_pi_sum(x, s, lo, hi - 1, piv) + piv(x / (s[hi - 1] as int)));
        assert(quotient_pi_sum(x, s, lo + 1, hi, piv) == quotient_pi_sum(x, s, lo + 1, hi - 1, piv) + piv(x / (s[hi - 1] as int)));
    } else {
        assert(quotient_pi_sum(x, s, lo, hi, piv) == quotient_pi_sum(x, s, lo, lo, piv) + piv(x / (s[lo] as int)));
        assert(quotient_pi_sum(x, s, lo + 1, hi, piv) == 0);
    }
}

/// p -> piv(x / p).
pub open spec fn quotient_term(x: int, piv: spec_fn(int) -> int) -> spec_fn(int) -> int {
    |p: int| piv(x / p)
}

/// Over a list whose entry `i` is the `(i + shift)`-th prime, the quotient
/// sum over the indices of the primes in (y, h] is the sum over those primes.
pub proof fn lemma_quotient_sum_is_prime_sum(
    x: int,
    s: Seq<u64>,
    start: int,
    shift: int,
    y: int,
    h: int,
    piv: spec_fn(int) -> int,
)
    requires
        prime_list_from(s, start, shift),
        y <= h,
        prime_count(y) + 1 - shift >= start,
        prime_count(h) + 1 - shift <= s.len(),
    ensures
        quotient_pi_sum(x, s, prime_count(y) + 1 - shift, prime_count(h) + 1 - shift, piv) == prime_sum(
            y,
            h,
            quotient_term(x, piv),
        ),
    decreases h - y,
{
    if y < h {
        lemma_prime_count_monotone(y, h - 1);
        lemma_prime_count_monotone(h - 1, h);
        lemma_quotient_sum_is_prime_sum(x, s, start, shift, y, h - 1, piv);
        if h >= 1 {
            lemma_prime_count_step(h);
        } else {
            assert(!is_prime(h));
        }
        if is_prime(h) {
            let i = prime_count(h) - shift;
            assert(start <= i < s.len());
            assert(is_prime(s[i] as int) && prime_count(s[i] as int) == i + shift);
            lemma_primes_equal_by_count(s[i] as int, h);
        }
    }
}

/// Sum over indices i in [lo, hi) of piv(x / s[i]) - (i + shift) + 1: the
/// leaf sum when `s[i]` is the `(i + shift)`-th prime.
pub open spec fn index_leaf_sum(x: int, s: Seq<u64>, lo: int, hi: int, piv: spec_fn(int) -> int, shift: int) -> int
    decreases hi - lo,
{
    if hi <= lo {
        0
    } else {
        index_leaf_sum(x, s, lo, hi - 1, piv, shift) + piv(x / s[hi - 1] as int) - (hi - 1 + shift) + 1
    }
}

/// Every running total of the leaves at indices [st, k), k <= en, fits in
/// i64.
pub open spec fn leaf_prefixes_fit(xm: int, s: Seq<u64>, st: int, en: int, piv: spec_fn(int) -> int) -> bool {
    forall|k: int| st <= k <= en ==> i64::MIN <= #[trigger] index_leaf_sum(xm, s, st, k, piv, 1) <= i64::MAX
}

/// Two counts that agree at every quotient of the range give the same
/// index leaf sum.
pub proof fn lemma_index_leaf_sum_piv_congruent(
    x: int,
    s: Seq<u64>,
    lo: int,
    hi: int,
    piv1: spec_fn(int) -> int,
    piv2: spec_fn(int) -> int,
    shift: int,
)
    requires
        forall|i: int| lo <= i < hi ==> piv1(x / (#[trigger] s[i] as int)) == piv2(x / (s[i] as int)),
    ensures
        index_leaf_sum(x, s, lo, hi, piv1, shift) == index_leaf_sum(x, s, lo, hi, piv2, shift),
    decreases hi - lo,
{
    if lo < hi {
        assert(piv1(x / (s[hi - 1] as int)) == piv2(x / (s[hi - 1] as int)));
        lemma_index_leaf_sum_piv_congruent(x, s, lo, hi - 1, piv1, piv2, shift);
    }
}

/// An index leaf sum splits at any middle index.
pub proof fn lemma_index_leaf_sum_split(
    x: int,
    s: Seq<u64>,
    lo: int,
    mid: int,
    hi: int,
    piv: spec_fn(int) -> int,
    shift: int,
)
    requires
        lo <= mid <= hi,
    ensures
        index_leaf_sum(x, s, lo, hi, piv, shift) == index_leaf_sum(x, s, lo, mid, piv, shift)
            + index_leaf_sum(x, s, mid, hi, piv, shift),
    decreases hi - mid,
{
    if mid < hi {
        lemma_index_leaf_sum_split(x, s, lo, mid, hi - 1, piv, shift);
    }
}

/// Two lists that agree on [lo, hi) give the same index leaf sum there.
pub proof fn lemma_index_leaf_sum_congruent(
    x: int,
    s1: Seq<u64>,
    s2: Seq<u64>,
    lo: int,
    hi: int,
    piv: spec_fn(int) -> int,
    shift: int,
)
    requires
        forall|i: int| lo <= i < hi ==> #[trigger] s1[i] == s2[i],
    ensures
        index_leaf_sum(x, s1, lo, hi, piv, shift) == index_leaf_sum(x, s2, lo, hi, piv, shift),
    decreases hi - lo,
{
    if lo < hi {
        assert(s1[hi - 1] == s2[hi - 1]);
        lemma_index_leaf_sum_congruent(x, s1, s2, lo, hi - 1, piv, shift);
    }
}

/// f(lo) + f(lo + 1) + ... + f(hi - 1).
pub open spec fn range_sum(lo: int, hi: int, f: spec_fn(int) -> int) -> int
    decreases hi - lo,
{
    if hi <= lo {
        0
    } else {
        range_sum(lo, hi - 1, f) + f(hi - 1)
    }
}

/// |f|.
pub open spec fn abs_of(f: spec_fn(int) -> int) -> spec_fn(int) -> int {
    |i: int| if f(i) < 0 { -f(i) } else { f(i) }
}

/// Every partial sum of f is bounded by the full sum of |f|.
pub proof fn lemma_range_sum_abs_bound(lo: int, k: int, hi: int, f: spec_fn(int) -> int)
    requires
        lo <= k <= hi,
    ensures
        -range_sum(lo, hi, abs_of(f)) <= range_sum(lo, k, f) <= range_sum(lo, hi, abs_of(f)),
        0 <= range_sum(lo, k, abs_of(f)) <= range_sum(lo, hi, abs_of(f)),
    decreases hi - lo,
{
    if k < hi {
        lemma_range_sum_abs_bound(lo, k, hi - 1, f);
    } else if lo < k {
        lemma_range_sum_abs_bound(lo, k - 1, hi - 1, f);
    }
}

/// A sum of nonnegative terms bounds each of its partial sums.
pub proof fn lemma_range_sum_nonneg_bound(lo: int, k: int, hi: int, f: spec_fn(int) -> int)
    requires
        lo <= k <= hi,
        forall|i: int| lo <= i < hi ==> #[trigger] f(i) >= 0,
    ensures
        0 <= range_sum(lo, k, f) <= range_sum(lo, hi, f),
    decreases hi - lo,
{
    if k < hi {
        lemma_range_sum_nonneg_bound(lo, k, hi - 1, f);
    } else if lo < k {
        lemma_range_sum_nonneg_bound(lo, k - 1, hi - 1, f);
    }
}

/// A range sum splits at any middle point.
pub proof fn lemma_range_sum_split(lo: int, mid: int, hi: int, f: spec_fn(int) -> int)
    requires
        lo <= mid <= hi,
    ensures
        range_sum(lo, hi, f) == range_sum(lo, mid, f) + range_sum(mid, hi, f),
    decreases hi - mid,
{
    if mid < hi {
        lemma_range_sum_split(lo, mid, hi - 1, f);
    }
}

/// A constant term c over [lo, hi) sums to (hi - lo) * c.
pub proof fn lemma_range_sum_const(lo: int, hi: int, f: spec_fn(int) -> int, c: int)
    requires
        lo <= hi,
        forall|i: int| lo <= i < hi ==> #[trigger] f(i) == c,
    ensures
        range_sum(lo, hi, f) == (hi - lo) * c,
    decreases hi - lo,
{
    if lo < hi {
        lemma_range_sum_const(lo, hi - 1, f, c);
        assert((hi - lo) * c == (hi - 1 - lo) * c + c) by (nonlinear_arith);
    } else {
        assert((hi - lo) * c == 0) by (nonlinear_arith)
            requires
                lo == hi,
        ;
    }
}

/// Terms dominated by g in absolute value: every partial sum is within the
/// sum of g.
pub proof fn lemma_range_sum_dominated(lo: int, k: int, hi: int, f: spec_fn(int) -> int, g: spec_fn(int) -> int)
    requires
        lo <= k <= hi,
        forall|i: int| lo <= i < hi ==> -#[trigger] g(i) <= f(i) <= g(i),
    ensures
        -range_sum(lo, hi, g) <= range_sum(lo, k, f) <= range_sum(lo, hi, g),
        0 <= range_sum(lo, k, g) <= range_sum(lo, hi, g),
        -range_sum(lo, k, g) <= range_sum(lo, k, f) <= range_sum(lo, k, g),
    decreases hi - lo,
{
    if k < hi {
        lemma_range_sum_dominated(lo, k, hi - 1, f, g);
    } else if lo < k {
        lemma_range_sum_dominated(lo, k - 1, hi - 1, f, g);
    }
}

/// `s[i]` is the `(i + shift)`-th prime for every index `i >= start`.
pub open spec fn prime_list_from(s: Seq<u64>, start: int, shift: int) -> bool {
    forall|i: int|
        start <= i < s.len() ==> is_prime(#[trigger] s[i] as int) && prime_count(s[i] as int) == i + shift
}

/// The index leaf sum splits into the quotient part and the index part.
pub proof fn lemma_index_leaf_sum_parts(x: int, s: Seq<u64>, lo: int, hi: int, piv: spec_fn(int) -> int, shift: int)
    requires
        lo <= hi,
    ensures
        index_leaf_sum(x, s, lo, hi, piv, shift) == quotient_pi_sum(x, s, lo, hi, piv) - index_sum(
            lo - 1,
            hi - 1,
        ) - (shift - 1) * (hi - lo),
    decreases hi - lo,
{
    if lo < hi {
        lemma_index_leaf_sum_parts(x, s, lo, hi - 1, piv, shift);
        assert((shift - 1) * (hi - lo) == (shift - 1) * (hi - 1 - lo) + (shift - 1))
            by (nonlinear_arith);
    } else {
        assert((shift - 1) * (hi - lo) == 0) by (nonlinear_arith)
            requires
                hi == lo,
        ;
    }
}

/// Two primes with the same count are equal.
pub proof fn lemma_primes_equal_by_count(p: int, q: int)
    requires
        is_prime(p),
        is_prime(q),
        prime_count(p) == prime_count(q),
    ensures
        p == q,
{
    if p < q {
        lemma_prime_count_monotone(p, q - 1);
        lemma_prime_count_step(q);
    }
    if q < p {
        lemma_prime_count_monotone(q, p - 1);
        lemma_prime_count_step(p);
    }
}

/// Summing by prime index over an indexed prime list is summing over the
/// primes in (y, h]: the leaf sum is the same.
pub proof fn lemma_index_leaf_sum_is_leaf_sum(
    x: int,
    s: Seq<u64>,
    start: int,
    shift: int,
    y: int,
    h: int,
    piv: spec_fn(int) -> int,
)
    requires
        prime_list_from(s, start, shift),
        y <= h,
        prime_count(y) + 1 - shift >= start,
        prime_count(h) + 1 - shift <= s.len(),
    ensures
        index_leaf_sum(x, s, prime_count(y) + 1 - shift, prime_count(h) + 1 - shift, piv, shift)
            == ac_leaf_sum(x, y, h, piv),
    decreases h - y,
{
    if y < h {
        lemma_prime_count_monotone(y, h - 1);
        lemma_prime_count_monotone(h - 1, h);
        lemma_index_leaf_sum_is_leaf_sum(x, s, start, shift, y, h - 1, piv);
        if h >= 1 {
            lemma_prime_count_step(h);
        } else {
            assert(!is_prime(h));
        }
        if is_prime(h) {
            let i = prime_count(h) - shift;
            assert(start <= i < s.len());
            assert(is_prime(s[i] as int) && prime_count(s[i] as int) == i + shift);
            lemma_primes_equal_by_count(s[i] as int, h);
        }
    }
}

/// An interval without primes (pi does not move) sums to 0.
pub proof fn lemma_prime_sum_no_primes(lo: int, hi: int, f: spec_fn(int) -> int)
    requires
        lo <= hi,
        prime_count(lo) == prime_count(hi),
    ensures
        prime_sum(lo, hi, f) == 0,
    decreases hi - lo,
{
    if lo < hi {
        lemma_prime_count_monotone(lo, hi - 1);
        lemma_prime_count_monotone(hi - 1, hi);
        if hi >= 1 {
            lemma_prime_count_step(hi);
        } else {
            assert(!is_prime(hi));
        }
        lemma_prime_sum_no_primes(lo, hi - 1, f);
    }
}

/// floor(x / p) == v whenever x / (v + 1) < p <= x / v.
pub proof fn lemma_quotient_in_band(x: int, v: int, p: int)
    requires
        x >= 0,
        v >= 1,
        x / (v + 1) < p <= x / v,
    ensures
        x / p == v,
{
    lemma_fundamental_div_mod(x, v + 1);
    lemma_fundamental_div_mod(x, v);
    let q1 = x / (v + 1);
    let q0 = x / v;
    assert(p >= 1) by {
        assert(q1 >= 0) by (nonlinear_arith)
            requires
                x >= 0,
                v >= 1,
                q1 == x / (v + 1),
        ;
    }
    // p * (v + 1) > x and p * v <= x
    assert(p * (v + 1) > x) by (nonlinear_arith)
        requires
            p >= q1 + 1,
            x == (v + 1) * q1 + x % (v + 1),
            x % (v + 1) < v + 1,
            v >= 1,
    ;
    assert(p * v <= x) by (nonlinear_arith)
        requires
            p <= q0,
            x == v * q0 + x % v,
            x % v >= 0,
            v >= 1,
    ;
    lemma_fundamental_div_mod(x, p);
    let q = x / p;
    let r = x % p;
    assert(q == v) by (nonlinear_arith)
        requires
            x == p * q + r,
            0 <= r < p,
            p * (v + 1) > x,
            p * v <= x,
            p >= 1,
    ;
}


/// Sums of a pointwise sum: h = f + g on [lo, hi) gives sum h = sum f + sum g.
pub proof fn lemma_range_sum_add(
    lo: int,
    hi: int,
    f: spec_fn(int) -> int,
    g: spec_fn(int) -> int,
    h: spec_fn(int) -> int,
)
    requires
        forall|i: int| lo <= i < hi ==> #[trigger] h(i) == f(i) + g(i),
    ensures
        range_sum(lo, hi, h) == range_sum(lo, hi, f) + range_sum(lo, hi, g),
    decreases hi - lo,
{
    if lo < hi {
        lemma_range_sum_add(lo, hi - 1, f, g, h);
    }
}

/// The sum of i - 1 over lo <= i < hi is index_sum(lo - 2, hi - 2).
pub proof fn lemma_range_sum_index(lo: int, hi: int)
    requires
        lo <= hi,
    ensures
        range_sum(lo, hi, |i: int| i - 1) == index_sum(lo - 2, hi - 2),
    decreases hi - lo,
{
    if lo < hi {
        lemma_range_sum_index(lo, hi - 1);
    }
}

} // verus!
