//! Lehmer assembly pieces: the count term T(a, b) of
//! pi(x) = Phi(x, a) + T(a, b) - P2(x, a, b) - P3(x, a, c).
use vstd::prelude::*;
use crate::leaf_sums::{
    index_sum, lemma_index_sum_closed, range_sum, lemma_range_sum_add, lemma_range_sum_const, lemma_range_sum_index,
    lemma_range_sum_split,
};
use crate::phi::{phi_count, buchstab_term, lemma_phi_rough_cut, lemma_phi_telescope};
use crate::p2_sweep::p2_sum;
use crate::p3::{p3_inner, p3_sum};
use crate::primality::{
    is_prime, prime_count, sentinel_prime_list, lemma_prime_count_step, lemma_prime_count_monotone,
    lemma_prime_list_index, lemma_small_prime_factor, lemma_prime_list_count, lemma_prime_list_sorted, sorted,
};
use crate::roots::{
    floor_sqrt, floor_cbrt, floor_root4, is_floor_sqrt, is_floor_cbrt, is_floor_root4, lemma_floor_roots_exist, isqrt,
    icbrt, iroot4,
};
use crate::phi::PhiEngine;
use crate::pi_table::{PiTable, generate_primes};
use crate::p2_sweep::{compute_p2, p2_domain};
use crate::p3::{compute_p3, p3_domain};
use crate::sampled_index::partition_point_le;
use crate::intmath::{max_u64, max_spec};
use vstd::arithmetic::div_mod::lemma_fundamental_div_mod;

verus! {

/// T(a, b) = (b + a - 2) * (b - a + 1) / 2 for a <= b, else 0.
pub open spec fn t_term(a: int, b: int) -> int {
    if a > b {
        0
    } else {
        (b + a - 2) * (b - a + 1) / 2
    }
}

/// Compute T(a, b) = (b + a - 2) * (b - a + 1) / 2, which is the sum of
/// i - 1 over a <= i <= b.
pub fn compute_t(a: usize, b: usize) -> (r: u128)
    requires
        a <= b ==> a + b >= 2,
        a <= b ==> (b + a - 2) * (b - a + 1) <= u128::MAX,
    ensures
        r == t_term(a as int, b as int),
        a <= b ==> r == index_sum(a - 2, b - 1),
{
    if a > b {
        return 0;
    }
    proof {
        lemma_index_sum_closed(a - 2, b - 1);
    }
    let a = a as u128;
    let b = b as u128;
    ((b + a - 2) * (b - a + 1)) / 2
}

/// Index facts of a 0-led prime list: P[i] is the i-th prime, and
/// P[i] <= w exactly when i <= pi(w).
pub(crate) proof fn lemma_sentinel_prime(primes: Seq<u64>, i: int, w: int)
    requires
        sentinel_prime_list(primes),
        1 <= i < primes.len(),
    ensures
        is_prime(primes[i] as int),
        primes[i] >= 2,
        prime_count(primes[i] as int) == i,
        prime_count(primes[i] - 1) == i - 1,
        primes[i] as int <= w <==> i <= prime_count(w),
{
    let s = primes.subrange(1, primes.len() as int);
    assert(primes[i] == s[i - 1]);
    lemma_prime_list_index(s, i - 1, w);
    lemma_prime_count_step(primes[i] as int);
}

/// For P[i]^2 <= x < P[i]^3 the integers up to x / P[i] free of the
/// primes below P[i] are 1 and the primes from P[i] on:
/// phi(x / P[i], i - 1) = 1 + pi(x / P[i]) - (i - 1).
proof fn lemma_lehmer_pair_term(x: int, i: int, primes: Seq<u64>)
    requires
        sentinel_prime_list(primes),
        1 <= i < primes.len(),
        x >= 0,
        primes[i] * primes[i] <= x,
        x < primes[i] * primes[i] * primes[i],
    ensures
        buchstab_term(x, primes)(i) == 1 + prime_count(x / (primes[i] as int)) - (i - 1),
{
    lemma_sentinel_prime(primes, i, 0);
    let p = primes[i] as int;
    let y = x / p;
    lemma_fundamental_div_mod(x, p);
    assert(y < p * p && y >= p) by (nonlinear_arith)
        requires
            x == p * y + x % p,
            0 <= x % p < p,
            p * p <= x,
            x < p * p * p,
            p >= 2,
    ;
    assert(y < ((p - 1) + 1) * ((p - 1) + 1));
    lemma_phi_rough_cut(y, i - 1, p - 1, primes);
    lemma_prime_count_monotone(p, y);
}

/// For P[i]^3 <= x < P[i]^4, Buchstab's identity taken once more splits
/// phi(x / P[i], i - 1) into 1 + pi(x / P[i]) - (i - 1) and the P3 terms of
/// P[i].
proof fn lemma_lehmer_triple_term(x: int, i: int, primes: Seq<u64>)
    requires
        sentinel_prime_list(primes),
        1 <= i < primes.len(),
        x >= 0,
        primes[i] * primes[i] * primes[i] <= x,
        x < primes[i] * primes[i] * primes[i] * primes[i],
        prime_count(floor_sqrt(x / (primes[i] as int))) < primes.len(),
    ensures
        buchstab_term(x, primes)(i) == 1 + prime_count(x / (primes[i] as int)) - (i - 1) + p3_inner(x, i, primes),
{
    lemma_sentinel_prime(primes, i, 0);
    let p = primes[i] as int;
    let y = x / p;
    lemma_fundamental_div_mod(x, p);
    assert(y >= p * p && y < p * p * p) by (nonlinear_arith)
        requires
            x == p * y + x % p,
            0 <= x % p < p,
            p * p * p <= x,
            x < p * p * p * p,
            p >= 2,
    ;
    lemma_floor_roots_exist(y);
    let rb = floor_sqrt(y);
    let bi = prime_count(rb) as int;
    assert(p <= rb && rb <= y) by (nonlinear_arith)
        requires
            p * p <= y,
            rb >= 0,
            rb * rb <= y,
            y < (rb + 1) * (rb + 1),
            p >= 2,
    ;
    lemma_sentinel_prime(primes, i, rb);
    lemma_phi_telescope(y, i, bi, primes);
    lemma_phi_rough_cut(y, bi, rb, primes);
    lemma_prime_count_monotone(rb, y);
    let f = buchstab_term(y, primes);
    let one = |j: int| 1int;
    let g = |j: int| prime_count(y / (primes[j] as int)) - (j - 1);
    assert forall|j: int| i <= j < bi + 1 implies #[trigger] f(j) == one(j) + g(j) by {
        lemma_sentinel_prime(primes, j, rb);
        let q = primes[j] as int;
        lemma_sentinel_prime(primes, i, q);
        assert(q * q <= y && y < q * q * q) by (nonlinear_arith)
            requires
                p <= q <= rb,
                rb * rb <= y,
                y < p * p * p,
                p >= 2,
        ;
        lemma_lehmer_pair_term(y, j, primes);
    }
    lemma_range_sum_add(i, bi + 1, one, g, f);
    lemma_range_sum_const(i, bi + 1, one, 1);
    assert(p3_inner(x, i, primes) == range_sum(i, bi + 1, g));
}

/// Lehmer's identity: for pi(x^(1/4)) <= a <= b = pi(x^(1/2)) and
/// c = pi(x^(1/3)),
/// pi(x) = phi(x, a) + T(a, b) - P2(x, a, b) - P3(x, a, c),
/// over a 0-led list of the primes that reaches past sqrt(x).
pub proof fn lemma_lehmer_identity(x: int, a: int, primes: Seq<u64>)
    requires
        sentinel_prime_list(primes),
        x >= 1,
        prime_count(floor_root4(x)) <= a <= prime_count(floor_sqrt(x)),
        prime_count(floor_sqrt(x)) < primes.len(),
    ensures
        prime_count(x) == phi_count(x, a, primes) + t_term(a, prime_count(floor_sqrt(x)) as int) - p2_sum(
            x,
            a,
            prime_count(floor_sqrt(x)) as int,
            primes,
        ) - p3_sum(x, a, prime_count(floor_cbrt(x)) as int, primes),
{
    lemma_floor_roots_exist(x);
    let r2 = floor_sqrt(x);
    let r3 = floor_cbrt(x);
    let r4 = floor_root4(x);
    let b = prime_count(r2) as int;
    let c = prime_count(r3) as int;
    assert(r3 <= r2 && r2 <= x) by (nonlinear_arith)
        requires
            r3 >= 0,
            r3 * r3 * r3 <= x,
            r2 >= 0,
            r2 * r2 <= x,
            x < (r2 + 1) * (r2 + 1),
            x >= 1,
    ;
    lemma_prime_count_monotone(r3, r2);
    lemma_prime_count_monotone(r2, x);
    lemma_phi_telescope(x, a + 1, b, primes);
    lemma_phi_rough_cut(x, b, r2, primes);
    let f = buchstab_term(x, primes);
    let k = |i: int| 1 + prime_count(x / (primes[i] as int)) - (i - 1);
    let g = |i: int| if i <= c { p3_inner(x, i, primes) } else { 0int };
    assert forall|i: int| a + 1 <= i < b + 1 implies #[trigger] f(i) == k(i) + g(i) by {
        lemma_sentinel_prime(primes, i, r2);
        lemma_sentinel_prime(primes, i, r3);
        lemma_sentinel_prime(primes, i, r4);
        let p = primes[i] as int;
        assert(p * p <= x && x < p * p * p * p) by (nonlinear_arith)
            requires
                2 <= p <= r2,
                r2 * r2 <= x,
                p >= r4 + 1,
                r4 >= 0,
                x < (r4 + 1) * (r4 + 1) * (r4 + 1) * (r4 + 1),
        ;
        if i <= c {
            assert(p * p * p <= x) by (nonlinear_arith)
                requires
                    2 <= p <= r3,
                    r3 * r3 * r3 <= x,
            ;
            let y = x / p;
            vstd::arithmetic::div_mod::lemma_div_is_ordered_by_denominator(x, 1, p);
            lemma_floor_roots_exist(y);
            crate::roots::lemma_floor_sqrt_monotone(y, floor_sqrt(y), x, r2);
            lemma_prime_count_monotone(floor_sqrt(y), r2);
            lemma_lehmer_triple_term(x, i, primes);
        } else {
            assert(x < p * p * p) by (nonlinear_arith)
                requires
                    p >= r3 + 1,
                    r3 >= 0,
                    x < (r3 + 1) * (r3 + 1) * (r3 + 1),
            ;
            lemma_lehmer_pair_term(x, i, primes);
        }
    }
    lemma_range_sum_add(a + 1, b + 1, k, g, f);
    let one = |i: int| 1int;
    let p2f = |i: int| prime_count(x / (primes[i] as int)) as int;
    let l = |i: int| 1int + prime_count(x / (primes[i] as int));
    let idx = |i: int| i - 1;
    assert forall|i: int| a + 1 <= i < b + 1 implies #[trigger] l(i) == k(i) + idx(i) by {}
    assert forall|i: int| a + 1 <= i < b + 1 implies #[trigger] l(i) == one(i) + p2f(i) by {}
    lemma_range_sum_add(a + 1, b + 1, k, idx, l);
    lemma_range_sum_add(a + 1, b + 1, one, p2f, l);
    lemma_range_sum_const(a + 1, b + 1, one, 1);
    lemma_range_sum_index(a + 1, b + 1);
    assert(range_sum(a + 1, b + 1, p2f) == p2_sum(x, a, b, primes));
    let zero = |i: int| 0int;
    let p3f = |i: int| p3_inner(x, i, primes);
    if a <= c {
        lemma_range_sum_split(a + 1, c + 1, b + 1, g);
        lemma_range_sum_const(c + 1, b + 1, g, 0);
        assert forall|i: int| a + 1 <= i < c + 1 implies #[trigger] g(i) == p3f(i) + zero(i) by {}
        lemma_range_sum_add(a + 1, c + 1, p3f, zero, g);
        lemma_range_sum_const(a + 1, c + 1, zero, 0);
        assert(range_sum(a + 1, c + 1, p3f) == p3_sum(x, a, c, primes));
    } else {
        lemma_range_sum_const(a + 1, b + 1, g, 0);
        assert(p3_sum(x, a, c, primes) == 0);
    }
    lemma_index_sum_closed(a - 2, b - 1);
    lemma_index_sum_closed(a - 1, b - 1);
    assert((a + b - 2) * (b - a + 1) == (a + b - 1) * (b - a) + 2 * (a - 1)) by (nonlinear_arith);
    assert(t_term(a, b) == index_sum(a - 2, b - 1));
}

/// pi(n) for 0 <= n <= 30: the primes up to 30 are 2, 3, 5, 7, 11, 13,
/// 17, 19, 23 and 29.
pub open spec fn small_prime_count(n: int) -> int {
    if n < 2 {
        0
    } else if n < 3 {
        1
    } else if n < 5 {
        2
    } else if n < 7 {
        3
    } else if n < 11 {
        4
    } else if n < 13 {
        5
    } else if n < 17 {
        6
    } else if n < 19 {
        7
    } else if n < 23 {
        8
    } else if n < 29 {
        9
    } else {
        10
    }
}

/// Below 49 a number divisible by none of 2, 3 and 5 (other than by itself)
/// is prime.
proof fn lemma_prime_below_49(n: int)
    requires
        2 <= n < 49,
        n == 2 || n % 2 != 0,
        n == 3 || n % 3 != 0,
        n == 5 || n % 5 != 0,
    ensures
        is_prime(n),
{
    if !is_prime(n) {
        let q = lemma_small_prime_factor(n);
        assert(q < 7) by (nonlinear_arith)
            requires
                q * q <= n,
                n < 49,
                q >= 2,
        ;
        if q == 4 {
            assert(4int % 2 == 0);
        }
        if q == 6 {
            assert(6int % 2 == 0);
        }
    }
}

/// pi(n) = small_prime_count(n) for 0 <= n <= 30.
pub proof fn lemma_small_prime_counts(n: int)
    requires
        0 <= n <= 30,
    ensures
        prime_count(n) == small_prime_count(n),
    decreases n,
{
    if n >= 1 {
        lemma_small_prime_counts(n - 1);
        lemma_prime_count_step(n);
        if n == 2 || n == 3 || n == 5 || n == 7 || n == 11 || n == 13 || n == 17 || n == 19 || n == 23 || n == 29 {
            lemma_prime_below_49(n);
        } else if n >= 2 {
            assert(n % 2 == 0 || n % 3 == 0 || n % 5 == 0);
            assert(!is_prime(n));
        }
    }
}

/// The list [0, p_1, p_2, ...]: the primes behind a 0, so that the list at
/// i is the i-th prime.
pub(crate) fn with_sentinel(base: &Vec<u64>) -> (v: Vec<u64>)
    ensures
        v@ == seq![0u64] + base@,
{
    let mut v: Vec<u64> = Vec::new();
    v.push(0);
    let mut k: usize = 0;
    while k < base.len()
        invariant
            k <= base@.len(),
            v@ == seq![0u64] + base@.subrange(0, k as int),
        decreases base@.len() - k,
    {
        v.push(base[k]);
        k += 1;
        assert(base@.subrange(0, k as int) == base@.subrange(0, k - 1).push(base@[k - 1]));
    }
    assert(base@.subrange(0, base@.len() as int) == base@);
    v
}

/// The floor roots of x >= 31 are ordered, the fourth root is at least 2,
/// and all lie below x.
pub(crate) proof fn lemma_roots_ordered(x: int, r2: int, r3: int, r4: int)
    requires
        x >= 31,
        is_floor_sqrt(x, r2),
        is_floor_cbrt(x, r3),
        is_floor_root4(x, r4),
    ensures
        2 <= r4 <= r3 <= r2 <= x,
{
    assert(r4 >= 2) by (nonlinear_arith)
        requires
            r4 >= 0,
            x < (r4 + 1) * (r4 + 1) * (r4 + 1) * (r4 + 1),
            x >= 31,
    ;
    assert(r4 <= r3) by (nonlinear_arith)
        requires
            r4 >= 2,
            r3 >= 0,
            r4 * r4 * r4 * r4 <= x,
            x < (r3 + 1) * (r3 + 1) * (r3 + 1),
    ;
    assert(r3 <= r2 <= x) by (nonlinear_arith)
        requires
            r3 >= 2,
            r2 >= 0,
            r3 * r3 * r3 <= x,
            r2 * r2 <= x,
            x < (r2 + 1) * (r2 + 1),
    ;
}

/// For the prime list [0, primes up to limit] with limit = max(sqrt(x) + 100, 100),
/// b and c the prime counts of the square and cube roots of x, and a
/// between the prime counts of the fourth and cube roots, every index and quotient that the Lehmer terms read lies within the
/// list and a table up to max(x / P[a + 1] + 30, sqrt(x)), and each term fits.
pub(crate) proof fn lemma_lehmer_ranges(
    x: int,
    r2: int,
    r3: int,
    r4: int,
    a: int,
    b: int,
    c: int,
    limit: int,
    ps: Seq<u64>,
    max_table: int,
)
    requires
        sentinel_prime_list(ps),
        ps.len() == prime_count(limit) + 1,
        31 <= x < usize::MAX / 4,
        is_floor_sqrt(x, r2),
        is_floor_cbrt(x, r3),
        is_floor_root4(x, r4),
        limit == max_spec(r2 + 100, 100),
        prime_count(r4) <= a <= c,
        b == prime_count(r2),
        c == prime_count(r3),
        max_table == if a + 1 < ps.len() {
            max_spec(x / (ps[a + 1] as int) + 30, r2)
        } else {
            r2 + 30
        },
    ensures
        1 <= a <= c <= b < ps.len(),
        max_table < usize::MAX / 2,
        (b + a - 2) * (b - a + 1) <= 0x1_0000_0000_0000_0000,
        p2_domain(x, a, b, ps, max_table),
        p3_domain(x, a, c, ps, max_table),
{
    lemma_roots_ordered(x, r2, r3, r4);
    lemma_small_prime_counts(2);
    lemma_prime_count_monotone(2, r4);
    lemma_prime_count_monotone(r3, r2);
    lemma_prime_count_monotone(r2, limit);
    crate::primality::lemma_prime_count_bound(limit);
    let len = ps.len() as int;
    assert(x < 0x4000_0000_0000_0000);
    assert(r2 < 0x8000_0000) by (nonlinear_arith)
        requires
            r2 >= 0,
            r2 * r2 <= x,
            x < 0x4000_0000_0000_0000,
    ;
    assert(len <= 0x8000_0000 + 101);
    assert((b + a - 2) * (b - a + 1) <= 0x1_0000_0000_0000_0000) by (nonlinear_arith)
        requires
            1 <= a <= b,
            b <= 0x8000_0000 + 101,
    ;
    assert((c + 1) * (len + 1) * (x + 1) <= u128::MAX) by (nonlinear_arith)
        requires
            0 <= c < len,
            len <= 0x8000_0000 + 101,
            0 <= x < 0x4000_0000_0000_0000,
    ;
    if a + 1 < len {
        lemma_sentinel_prime(ps, a + 1, 0);
        let q = ps[a + 1] as int;
        vstd::arithmetic::div_mod::lemma_div_is_ordered_by_denominator(x, 2, q);
        assert(max_table < usize::MAX / 2);
        assert forall|i: int| a < i <= b implies #[trigger] ps[i] > 0 && x / (ps[i] as int) <= max_table by {
            lemma_sentinel_prime(ps, i, q);
            lemma_sentinel_prime(ps, a + 1, ps[i] as int);
            vstd::arithmetic::div_mod::lemma_div_is_ordered_by_denominator(x, q, ps[i] as int);
        }
        assert forall|i: int| a < i <= c implies {
            let xi = x / (#[trigger] ps[i] as int);
            &&& floor_sqrt(xi) <= max_table
            &&& prime_count(floor_sqrt(xi)) < ps.len()
            &&& xi / (ps[i] as int) <= max_table
        } by {
            let p = ps[i] as int;
            assert(x / p <= max_table);
            lemma_sentinel_prime(ps, i, 0);
            let xi = x / p;
            vstd::arithmetic::div_mod::lemma_div_is_ordered_by_denominator(x, 1, p);
            vstd::arithmetic::div_mod::lemma_div_is_ordered_by_denominator(xi, 1, p);
            lemma_floor_roots_exist(xi);
            crate::roots::lemma_floor_sqrt_monotone(xi, floor_sqrt(xi), x, r2);
            lemma_prime_count_monotone(floor_sqrt(xi), r2);
            assert(floor_sqrt(xi) <= xi) by (nonlinear_arith)
                requires
                    floor_sqrt(xi) >= 0,
                    floor_sqrt(xi) * floor_sqrt(xi) <= xi,
            ;
        }
    }
}

/// Evaluates pi(x) by Lehmer's identity; holds the state of its Phi engine.
pub struct LehmerCounter {
    phi_engine: PhiEngine,
}

impl LehmerCounter {
    /// A counter with a fresh Phi engine.
    pub fn new() -> (c: Self) {
        LehmerCounter { phi_engine: PhiEngine::new() }
    }

    /// pi(x), exactly, by Lehmer's identity with a = pi(x^(1/4)); below 31
    /// from the list of the primes up to 30.
    pub fn count(&mut self, x: u64) -> (r: u64)
        requires
            x < usize::MAX / 4,
        ensures
            r == prime_count(x as int),
    {
        proof {
            if x <= 30 {
                lemma_small_prime_counts(x as int);
            }
        }
        if x < 2 {
            return 0;
        }
        if x == 2 {
            return 1;
        }
        if x < 5 {
            return 2;
        }
        if x < 7 {
            return 3;
        }
        if x < 11 {
            return 4;
        }
        if x < 13 {
            return 5;
        }
        if x < 17 {
            return 6;
        }
        if x < 19 {
            return 7;
        }
        if x < 23 {
            return 8;
        }
        if x < 29 {
            return 9;
        }
        if x < 31 {
            return 10;
        }
        let x_root4 = iroot4(x);
        let x_cbrt = icbrt(x);
        let x_sqrt = isqrt(x);
        proof {
            lemma_roots_ordered(x as int, x_sqrt as int, x_cbrt as int, x_root4 as int);
        }
        let max_prime_needed = max_u64(x_sqrt + 100, 100);
        let base_primes = generate_primes(max_prime_needed);
        let primes = with_sentinel(&base_primes);
        let ghost ps = primes@;
        let ghost limit = max_prime_needed as int;
        proof {
            lemma_roots_ordered(x as int, x_sqrt as int, x_cbrt as int, x_root4 as int);
            lemma_prime_count_monotone(x_root4 as int, x_cbrt as int);
            lemma_prime_count_monotone(x_cbrt as int, x_sqrt as int);
            lemma_prime_count_monotone(x_sqrt as int, limit);
            lemma_prime_list_count(base_primes@, x_root4 as int);
            lemma_prime_list_count(base_primes@, x_cbrt as int);
            lemma_prime_list_count(base_primes@, x_sqrt as int);
            lemma_prime_list_sorted(base_primes@);
            assert(ps.subrange(1, ps.len() as int) == base_primes@);
            assert(sorted(base_primes@)) by {
                assert forall|i: int, j: int| 0 <= i <= j < base_primes@.len() implies #[trigger] base_primes@[i]
                    <= #[trigger] base_primes@[j] by {
                    if i < j {
                        assert(base_primes@[i] < base_primes@[j]);
                    }
                }
            }
        }
        let a = partition_point_le(base_primes.as_slice(), x_root4);
        let b = partition_point_le(base_primes.as_slice(), x_sqrt);
        let c = partition_point_le(base_primes.as_slice(), x_cbrt);
        let plen = primes.len();
        assert(a < plen);
        let max_table = if a + 1 < plen {
            max_u64(x / primes[a + 1] + 30, x_sqrt)
        } else {
            x_sqrt + 30
        };
        proof {
            lemma_lehmer_ranges(
                x as int,
                x_sqrt as int,
                x_cbrt as int,
                x_root4 as int,
                a as int,
                b as int,
                c as int,
                limit,
                ps,
                max_table as int,
            );
        }
        let pi_table = PiTable::new(max_table);
        let phi_val = self.phi_engine.eval(x, a, primes.as_slice(), &pi_table);
        let t_val = compute_t(a, b);
        let p2_val = compute_p2(x, a, b, primes.as_slice(), &pi_table);
        let p3_val = compute_p3(x, a, c, primes.as_slice(), &pi_table);
        proof {
            lemma_lehmer_identity(x as int, a as int, ps);
            crate::primality::lemma_prime_count_bound(x as int);
            assert(t_val <= 0x1_0000_0000_0000_0000);
            assert(p2_val + p3_val <= phi_val + t_val);
        }
        let ans = (phi_val as i128) + (t_val as i128) - (p2_val as i128) - (p3_val as i128);
        ans as u64
    }

    /// pi(x) by Lehmer's identity with a chosen a in
    /// [pi(x^(1/4)), pi(x^(1/3))], over a table that reaches every quotient
    /// x / p by a prime past the a-th; below 31 as `count`.
    pub fn count_with_a(&mut self, x: u64, a: usize) -> (r: u64)
        requires
            x < usize::MAX / 4,
            x >= 31 ==> prime_count(floor_root4(x as int)) <= a <= prime_count(floor_cbrt(x as int)),
        ensures
            r == prime_count(x as int),
    {
        if x < 31 {
            return self.count(x);
        }
        let x_root4 = iroot4(x);
        let x_cbrt = icbrt(x);
        let x_sqrt = isqrt(x);
        proof {
            lemma_roots_ordered(x as int, x_sqrt as int, x_cbrt as int, x_root4 as int);
        }
        let max_prime_needed = max_u64(x_sqrt + 100, 100);
        let base_primes = generate_primes(max_prime_needed);
        let primes = with_sentinel(&base_primes);
        let ghost ps = primes@;
        let ghost limit = max_prime_needed as int;
        proof {
            lemma_prime_count_monotone(x_root4 as int, x_cbrt as int);
            lemma_prime_count_monotone(x_cbrt as int, x_sqrt as int);
            lemma_prime_count_monotone(x_sqrt as int, limit);
            lemma_prime_list_count(base_primes@, x_cbrt as int);
            lemma_prime_list_count(base_primes@, x_sqrt as int);
            lemma_prime_list_sorted(base_primes@);
            assert(ps.subrange(1, ps.len() as int) == base_primes@);
            assert(sorted(base_primes@)) by {
                assert forall|i: int, j: int| 0 <= i <= j < base_primes@.len() implies #[trigger] base_primes@[i]
                    <= #[trigger] base_primes@[j] by {
                    if i < j {
                        assert(base_primes@[i] < base_primes@[j]);
                    }
                }
            }
        }
        let b = partition_point_le(base_primes.as_slice(), x_sqrt);
        let c = partition_point_le(base_primes.as_slice(), x_cbrt);
        let plen = primes.len();
        assert(a < plen);
        let max_table = if a + 1 < plen {
            max_u64(x / primes[a + 1] + 30, x_sqrt)
        } else {
            x_sqrt + 30
        };
        proof {
            lemma_lehmer_ranges(
                x as int,
                x_sqrt as int,
                x_cbrt as int,
                x_root4 as int,
                a as int,
                b as int,
                c as int,
                limit,
                ps,
                max_table as int,
            );
        }
        let pi_table = PiTable::new(max_table);
        let phi_val = self.phi_engine.eval(x, a, primes.as_slice(), &pi_table);
        let t_val = compute_t(a, b);
        let p2_val = compute_p2(x, a, b, primes.as_slice(), &pi_table);
        let p3_val = compute_p3(x, a, c, primes.as_slice(), &pi_table);
        proof {
            lemma_lehmer_identity(x as int, a as int, ps);
            crate::primality::lemma_prime_count_bound(x as int);
            assert(t_val <= 0x1_0000_0000_0000_0000);
            assert(p2_val + p3_val <= phi_val + t_val);
        }
        let ans = (phi_val as i128) + (t_val as i128) - (p2_val as i128) - (p3_val as i128);
        ans as u64
    }
}

/// pi(x) exactly, by a fresh Lehmer counter; the thread budget is
/// accepted and the count runs on the calling thread.
pub fn compute_pi_exact(x: u64, _threads: usize) -> (r: u64)
    requires
        x < usize::MAX / 4,
    ensures
        r == prime_count(x as int),
{
    let mut c = LehmerCounter::new();
    c.count(x)
}

} // verus!
