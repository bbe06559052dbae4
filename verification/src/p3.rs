//! The P3 sum of Lehmer's formula: over a < i <= c and
//! i <= j <= pi(sqrt(x / p_i)), the terms pi(x / (p_i p_j)) - (j - 1).
use vstd::prelude::*;
use crate::leaf_sums::range_sum;
use crate::pi_table::PiTable;
use crate::primality::{
    is_prime, prime_count, sentinel_prime_list, lemma_prime_count_bound, lemma_prime_count_monotone,
    lemma_prime_list_index,
};
use crate::roots::{isqrt, floor_sqrt};
use vstd::arithmetic::div_mod::{lemma_fundamental_div_mod, lemma_div_is_ordered_by_denominator};

verus! {

/// The terms of p_i: over i <= j <= pi(sqrt(x / p_i)),
/// pi(x / p_i / p_j) - (j - 1).
pub open spec fn p3_inner(x: int, i: int, primes: Seq<u64>) -> int {
    let xi = x / (primes[i] as int);
    let bi = prime_count(floor_sqrt(xi)) as int;
    range_sum(i, bi + 1, |j: int| prime_count(xi / (primes[j] as int)) - (j - 1))
}

/// P3 = sum over a < i <= c of the terms of p_i.
pub open spec fn p3_sum(x: int, a: int, c: int, primes: Seq<u64>) -> int {
    range_sum(a + 1, c + 1, |i: int| p3_inner(x, i, primes))
}

/// Every index and quotient of P3 lies within the list and the table, and
/// the sum fits.
pub open spec fn p3_domain(x: int, a: int, c: int, primes: Seq<u64>, max_y: int) -> bool {
    &&& c < primes.len()
    &&& a >= 0
    &&& (c + 1) * (primes.len() + 1) * (x + 1) <= u128::MAX
    &&& forall|i: int|
        a < i <= c ==> {
            let xi = x / (#[trigger] primes[i] as int);
            &&& floor_sqrt(xi) <= max_y
            &&& prime_count(floor_sqrt(xi)) < primes.len()
            &&& xi / (primes[i] as int) <= max_y
        }
}

/// A term with j <= pi(sqrt(xi)) is at least 1: p_j <= sqrt(xi), so
/// xi / p_j >= p_j and pi(xi / p_j) >= j.
proof fn lemma_p3_term_positive(xi: int, j: int, primes: Seq<u64>)
    requires
        sentinel_prime_list(primes),
        1 <= j < primes.len(),
        xi >= 0,
        crate::roots::is_floor_sqrt(xi, floor_sqrt(xi)),
        j <= prime_count(floor_sqrt(xi)),
    ensures
        prime_count(xi / (primes[j] as int)) - (j - 1) >= 1,
        primes[j] <= floor_sqrt(xi),
{
    let s = primes.subrange(1, primes.len() as int);
    let w = floor_sqrt(xi);
    assert(primes[j] == s[j - 1]);
    lemma_prime_list_index(s, j - 1, w);
    let p = primes[j] as int;
    assert(is_prime(p) && prime_count(p) == j);
    lemma_fundamental_div_mod(xi, p);
    assert(xi / p >= p) by (nonlinear_arith)
        requires
            p <= w,
            w * w <= xi,
            p >= 2,
            w >= 0,
            xi == p * (xi / p) + xi % p,
            xi % p < p,
    ;
    lemma_prime_count_monotone(p, xi / p);
}

/// P3 = sum over a < i <= c and i <= j <= pi(sqrt(x / p_i)) of
/// pi(x / (p_i p_j)) - (j - 1).
pub fn compute_p3(x: u64, a: usize, c: usize, primes: &[u64], pi_table: &PiTable) -> (r: u128)
    requires
        sentinel_prime_list(primes@),
        pi_table.valid(),
        p3_domain(x as int, a as int, c as int, primes@, pi_table.max_y as int),
    ensures
        r == p3_sum(x as int, a as int, c as int, primes@),
{
    let ghost ps = primes@;
    let ghost g = |i: int| p3_inner(x as int, i, ps);
    if a >= c {
        return 0;
    }
    let len = primes.len();
    let mut total: u128 = 0;
    let mut i = a + 1;
    assert(0 * ((len + 1) * (x + 1)) == 0) by (nonlinear_arith);
    while i <= c
        invariant
            ps == primes@,
            sentinel_prime_list(ps),
            pi_table.valid(),
            p3_domain(x as int, a as int, c as int, ps, pi_table.max_y as int),
            g == (|i: int| p3_inner(x as int, i, ps)),
            len == ps.len(),
            a < c < len,
            a + 1 <= i <= c + 1,
            total == range_sum(a + 1, i as int, g),
            0 <= total <= (i - a - 1) * ((len + 1) * (x + 1)),
        decreases c + 1 - i,
    {
        let p = primes[i];
        proof {
            let s = ps.subrange(1, ps.len() as int);
            assert(ps[i as int] == s[i - 1]);
            assert(is_prime(p as int));
        }
        let xi = x / p;
        let r_i = isqrt(xi);
        let bi = pi_table.pi(r_i) as usize;
        proof {
            assert(floor_sqrt(xi as int) <= pi_table.max_y);
            lemma_prime_count_bound(floor_sqrt(xi as int));
        }
        let ghost f = |j: int| prime_count(xi as int / (ps[j] as int)) - (j - 1);
        let mut inner: u128 = 0;
        let mut j = i;
        proof {
            assert(0 * (x + 1) == 0) by (nonlinear_arith);
            assert((len + 1) * (x + 1) <= u128::MAX) by (nonlinear_arith)
                requires
                    (c + 1) * (len + 1) * (x + 1) <= u128::MAX,
                    c >= 0,
                    len >= 0,
                    x >= 0,
            ;
        }
        while j <= bi
            invariant
                ps == primes@,
                sentinel_prime_list(ps),
                pi_table.valid(),
                len == ps.len(),
                1 <= i <= j,
                i <= c < len,
                bi == prime_count(floor_sqrt(xi as int)),
                crate::roots::is_floor_sqrt(xi as int, floor_sqrt(xi as int)),
                bi < len,
                xi == x / p,
                p == ps[i as int],
                p >= 2,
                xi / p <= pi_table.max_y,
                f == (|j: int| prime_count(xi as int / (ps[j] as int)) - (j - 1)),
                j <= bi + 1 || j == i,
                (len + 1) * (x + 1) <= u128::MAX,
                inner == range_sum(i as int, j as int, f),
                0 <= inner <= (j - i) * (x + 1),
            decreases bi + 1 - j,
        {
            let q = primes[j];
            proof {
                lemma_p3_term_positive(xi as int, j as int, ps);
                let s = ps.subrange(1, ps.len() as int);
                assert(ps[j as int] == s[j - 1]);
                crate::primality::lemma_prime_list_sorted(s);
                if i < j {
                    assert(s[i - 1] < s[j - 1]);
                }
                lemma_div_is_ordered_by_denominator(xi as int, p as int, q as int);
                lemma_prime_count_bound(xi as int / q as int);
                lemma_div_is_ordered_by_denominator(x as int, 1, p as int);
                lemma_div_is_ordered_by_denominator(xi as int, 1, q as int);
                assert((j + 1 - i) * (x + 1) == (j - i) * (x + 1) + x + 1) by (nonlinear_arith);
                assert((j + 1 - i) * (x + 1) <= (len + 1) * (x + 1)) by (nonlinear_arith)
                    requires
                        j + 1 - i <= len + 1,
                        x >= 0,
                ;
            }
            let v = xi / q;
            inner = inner + (pi_table.pi(v) as u128) + 1 - (j as u128);
            j += 1;
        }
        proof {
            if bi + 1 < i {
                assert(range_sum(i as int, bi + 1, f) == 0);
            }
            assert(p3_inner(x as int, i as int, ps) == range_sum(i as int, bi + 1, f));
            assert((j - i) * (x + 1) <= (len + 1) * (x + 1)) by (nonlinear_arith)
                requires
                    j - i <= len + 1,
                    x >= 0,
            ;
            assert((i + 1 - a - 1) * ((len + 1) * (x + 1)) == (i - a - 1) * ((len + 1) * (x + 1)) + (len + 1) * (
            x + 1)) by (nonlinear_arith);
            assert((i + 1 - a - 1) * ((len + 1) * (x + 1)) <= (c + 1) * (len + 1) * (x + 1)) by (nonlinear_arith)
                requires
                    i + 1 - a - 1 <= c + 1,
                    len >= 0,
                    x >= 0,
            ;
        }
        total = total + inner;
        i += 1;
    }
    total
}

} // verus!
