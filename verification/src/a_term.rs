//! Ordinary leaves A(x, y) over squarefree m <= y:
//! A(x, y) = sum over squarefree m <= y whose least prime factor lies past
//! P[k] of mu(m) * phi(x / m, pi(lpf(m)) - 1).
use vstd::prelude::*;
use crate::phi::{phi_count, lemma_phi_bounds, PhiEngine};
use crate::pi_table::PiTable;
use crate::primality::{
    count_le, is_prime, prime_count, sentinel_prime_list, sorted, strip_sentinel, lemma_count_le_bound,
    lemma_divides_trans, lemma_prime_count_monotone,
};
use crate::sampled_index::{partition_point_le, strip_sentinel_slice};

verus! {

/// The leaves below m whose primes are P[j], P[j + 1], ..., P[hi] (each
/// with m * P[i] <= y, taken in ascending order until one passes y), with
/// `sign` the Mobius sign of the first level below m and `a` the count of
/// primes below lpf(m): sign * phi(x / (m P[i]), a) for each, then their
/// own multiples with the opposite sign.
pub open spec fn ord_spec(x: int, y: int, j: int, hi: int, m: int, a: int, sign: int, ps: Seq<u64>) -> int
    decreases hi + 1 - j,
{
    if j < 1 || j > hi || j >= ps.len() {
        0
    } else {
        let nm = m * (ps[j] as int);
        if nm > y {
            0
        } else {
            sign * phi_count(x / nm, a, ps) + ord_spec(x, y, j + 1, hi, nm, a, -sign, ps) + ord_spec(
                x,
                y,
                j + 1,
                hi,
                m,
                a,
                sign,
                ps,
            )
        }
    }
}

/// The same leaves in absolute value.
pub open spec fn ord_abs(x: int, y: int, j: int, hi: int, m: int, a: int, ps: Seq<u64>) -> int
    decreases hi + 1 - j,
{
    if j < 1 || j > hi || j >= ps.len() {
        0
    } else {
        let nm = m * (ps[j] as int);
        if nm > y {
            0
        } else {
            phi_count(x / nm, a, ps) + ord_abs(x, y, j + 1, hi, nm, a, ps) + ord_abs(x, y, j + 1, hi, m, a, ps)
        }
    }
}

/// The trees rooted at the primes P[i], P[i + 1], ..., P[hi] that do not
/// pass y: -phi(x / P[i], i - 1) and the leaves below P[i].
pub open spec fn ord_roots(x: int, y: int, i: int, hi: int, ps: Seq<u64>) -> int
    decreases hi + 1 - i,
{
    if i < 1 || i > hi || i >= ps.len() || ps[i] > y {
        0
    } else {
        -phi_count(x / (ps[i] as int), i - 1, ps) + ord_spec(x, y, i + 1, hi, ps[i] as int, i - 1, 1, ps)
            + ord_roots(x, y, i + 1, hi, ps)
    }
}

/// The same trees in absolute value.
pub open spec fn ord_roots_abs(x: int, y: int, i: int, hi: int, ps: Seq<u64>) -> int
    decreases hi + 1 - i,
{
    if i < 1 || i > hi || i >= ps.len() || ps[i] > y {
        0
    } else {
        phi_count(x / (ps[i] as int), i - 1, ps) + ord_abs(x, y, i + 1, hi, ps[i] as int, i - 1, ps)
            + ord_roots_abs(x, y, i + 1, hi, ps)
    }
}

/// Index of the last root: one past the count of the listed primes <= y.
pub open spec fn ord_last_index(y: int, ps: Seq<u64>) -> int {
    count_le(strip_sentinel(ps), y) as int + 1
}

/// A(x, y) with primes past P[k]: 0 when y < P[k + 1].
pub open spec fn ordinary_leaves_sum(x: int, y: int, k: int, ps: Seq<u64>) -> int {
    if y < ps[k + 1] {
        0
    } else {
        ord_roots(x, y, k + 1, ord_last_index(y, ps), ps)
    }
}

/// The same in absolute value.
pub open spec fn ordinary_leaves_abs(x: int, y: int, k: int, ps: Seq<u64>) -> int {
    if y < ps[k + 1] {
        0
    } else {
        ord_roots_abs(x, y, k + 1, ord_last_index(y, ps), ps)
    }
}

/// A leaf sum lies within its absolute sum.
proof fn lemma_ord_abs_bound(x: int, y: int, j: int, hi: int, m: int, a: int, sign: int, ps: Seq<u64>)
    requires
        sign == 1 || sign == -1,
    ensures
        0 <= ord_abs(x, y, j, hi, m, a, ps),
        -ord_abs(x, y, j, hi, m, a, ps) <= ord_spec(x, y, j, hi, m, a, sign, ps) <= ord_abs(x, y, j, hi, m, a, ps),
    decreases hi + 1 - j,
{
    if !(j < 1 || j > hi || j >= ps.len()) {
        let nm = m * (ps[j] as int);
        if nm <= y {
            lemma_phi_bounds(x / nm, a, ps);
            lemma_ord_abs_bound(x, y, j + 1, hi, nm, a, -sign, ps);
            lemma_ord_abs_bound(x, y, j + 1, hi, m, a, sign, ps);
            let f = phi_count(x / nm, a, ps);
            assert(-f <= sign * f <= f) by (nonlinear_arith)
                requires
                    sign == 1 || sign == -1,
                    f >= 0,
            ;
        }
    }
}

/// A root sum lies within its absolute sum.
proof fn lemma_ord_roots_abs_bound(x: int, y: int, i: int, hi: int, ps: Seq<u64>)
    ensures
        0 <= ord_roots_abs(x, y, i, hi, ps),
        -ord_roots_abs(x, y, i, hi, ps) <= ord_roots(x, y, i, hi, ps) <= ord_roots_abs(x, y, i, hi, ps),
    decreases hi + 1 - i,
{
    if !(i < 1 || i > hi || i >= ps.len() || ps[i] > y) {
        lemma_phi_bounds(x / (ps[i] as int), i - 1, ps);
        lemma_ord_abs_bound(x, y, i + 1, hi, ps[i] as int, i - 1, 1, ps);
        lemma_ord_roots_abs_bound(x, y, i + 1, hi, ps);
    }
}

/// The leaves below m (see `ord_spec`), by a loop over the next prime and
/// a recursion into the multiples of each.
fn ord_rec(
    x: u64,
    y: u64,
    j: usize,
    hi: usize,
    m: u64,
    a: usize,
    sign: i64,
    primes: &[u64],
    pi_table: &PiTable,
) -> (r: i64)
    requires
        j >= 1,
        hi < usize::MAX,
        m >= 1,
        sign == 1 || sign == -1,
        sentinel_prime_list(primes@),
        a < primes@.len(),
        pi_table.valid(),
        ord_abs(x as int, y as int, j as int, hi as int, m as int, a as int, primes@) <= i64::MAX,
    ensures
        r == ord_spec(x as int, y as int, j as int, hi as int, m as int, a as int, sign as int, primes@),
    decreases hi + 1 - j,
{
    let ghost ps = primes@;
    let ghost j0 = j as int;
    let ghost total = ord_abs(x as int, y as int, j0, hi as int, m as int, a as int, ps);
    let ghost whole = ord_spec(x as int, y as int, j0, hi as int, m as int, a as int, sign as int, ps);
    let mut sum: i64 = 0;
    let mut idx = j;
    let ghost mut done: int = 0;
    proof {
        lemma_ord_abs_bound(x as int, y as int, j0, hi as int, m as int, a as int, sign as int, ps);
    }
    while idx <= hi
        invariant
            ps == primes@,
            j0 == j,
            j0 >= 1,
            j0 <= idx,
            hi < usize::MAX,
            m >= 1,
            sign == 1 || sign == -1,
            sentinel_prime_list(ps),
            a < ps.len(),
            pi_table.valid(),
            total == ord_abs(x as int, y as int, j0, hi as int, m as int, a as int, ps),
            total <= i64::MAX,
            whole == ord_spec(x as int, y as int, j0, hi as int, m as int, a as int, sign as int, ps),
            sum + ord_spec(x as int, y as int, idx as int, hi as int, m as int, a as int, sign as int, ps) == whole,
            0 <= done,
            -done <= sum <= done,
            done + ord_abs(x as int, y as int, idx as int, hi as int, m as int, a as int, ps) == total,
        ensures
            sum == whole,
        decreases hi + 1 - idx,
    {
        if idx >= primes.len() {
            return sum;
        }
        let p = primes[idx];
        let nm = match m.checked_mul(p) {
            Some(v) => v,
            None => {
                return sum;
            },
        };
        if nm > y {
            return sum;
        }
        proof {
            let s = ps.subrange(1, ps.len() as int);
            assert(ps[idx as int] == s[idx - 1]);
            assert(crate::primality::is_prime(s[idx - 1] as int));
            assert(nm >= 1) by (nonlinear_arith)
                requires
                    nm == m * p,
                    m >= 1,
                    p >= 2,
            ;
        }
        let ghost child = ord_abs(x as int, y as int, idx + 1, hi as int, nm as int, a as int, ps);
        let ghost rest = ord_abs(x as int, y as int, idx + 1, hi as int, m as int, a as int, ps);
        let ghost f = phi_count(x as int / nm as int, a as int, ps);
        proof {
            lemma_phi_bounds(x as int / nm as int, a as int, ps);
            lemma_ord_abs_bound(x as int, y as int, idx + 1, hi as int, nm as int, a as int, -sign, ps);
            lemma_ord_abs_bound(x as int, y as int, idx + 1, hi as int, m as int, a as int, sign as int, ps);
            assert(done + f + child + rest == total);
            assert(-f <= sign * f <= f) by (nonlinear_arith)
                requires
                    sign == 1 || sign == -1,
                    f >= 0,
            ;
        }
        let mut engine = PhiEngine::new();
        let phi = engine.eval(x / nm, a, primes, pi_table);
        sum = sum + sign * (phi as i64);
        let sub = ord_rec(x, y, idx + 1, hi, nm, a, -sign, primes, pi_table);
        sum = sum + sub;
        idx += 1;
        proof {
            done = done + f + child;
        }
    }
    sum
}

/// Evaluator of the ordinary leaves A(x, y).
pub struct OrdinaryLeavesA;

impl OrdinaryLeavesA {
    /// A(x, y) over the squarefree m <= y built from the primes past P[k]
    /// of the 0-led list: for each m, mu(m) * phi(x / m, pi(lpf(m)) - 1),
    /// the trees of m taken root by root in ascending order.
    pub fn compute(x: u64, y: u64, k: usize, primes: &[u64], pi_table: &PiTable) -> (r: i64)
        requires
            sentinel_prime_list(primes@),
            k + 1 < primes@.len(),
            primes@.len() < usize::MAX - 1,
            pi_table.valid(),
            ordinary_leaves_abs(x as int, y as int, k as int, primes@) <= i64::MAX,
        ensures
            r == ordinary_leaves_sum(x as int, y as int, k as int, primes@),
            prime_count(y as int) < primes@.len() ==> r == ordinary_leaves_direct(
                x as int,
                y as int,
                k as int,
                primes@,
            ),
    {
        let ghost ps = primes@;
        proof {
            if prime_count(y as int) < primes@.len() {
                lemma_ordinary_leaves_are_mobius_sum(x as int, y as int, k as int, ps);
            }
        }
        if y < primes[k + 1] {
            return 0;
        }
        let prime_slice = strip_sentinel_slice(primes);
        proof {
            crate::primality::lemma_prime_list_sorted(prime_slice@);
            assert(sorted(prime_slice@)) by {
                assert forall|i: int, j: int| 0 <= i <= j < prime_slice@.len() implies #[trigger] prime_slice@[i]
                    <= #[trigger] prime_slice@[j] by {
                    if i < j {
                        assert(prime_slice@[i] < prime_slice@[j]);
                    }
                }
            }
            lemma_count_le_bound(prime_slice@, y as int);
        }
        let max_prime_idx = partition_point_le(prime_slice, y) + 1;
        let ghost hi = max_prime_idx as int;
        assert(hi == ord_last_index(y as int, ps));
        let ghost total = ord_roots_abs(x as int, y as int, k + 1, hi, ps);
        let ghost whole = ord_roots(x as int, y as int, k + 1, hi, ps);
        proof {
            lemma_ord_roots_abs_bound(x as int, y as int, k + 1, hi, ps);
        }
        let mut sum: i64 = 0;
        let mut i = k + 1;
        let ghost mut done: int = 0;
        while i <= max_prime_idx
            invariant
                ps == primes@,
                sentinel_prime_list(ps),
                ps.len() < usize::MAX - 1,
                pi_table.valid(),
                hi == max_prime_idx,
                hi == ord_last_index(y as int, ps),
                prime_count(y as int) < ps.len() ==> ordinary_leaves_sum(x as int, y as int, k as int, ps)
                    == ordinary_leaves_direct(x as int, y as int, k as int, ps),
                y >= ps[k + 1],
                k + 1 < ps.len(),
                hi < usize::MAX,
                k + 1 <= i,
                total == ord_roots_abs(x as int, y as int, k + 1, hi, ps),
                total <= i64::MAX,
                whole == ord_roots(x as int, y as int, k + 1, hi, ps),
                sum + ord_roots(x as int, y as int, i as int, hi, ps) == whole,
                0 <= done,
                -done <= sum <= done,
                done + ord_roots_abs(x as int, y as int, i as int, hi, ps) == total,
            ensures
                sum == whole,
            decreases hi + 1 - i,
        {
            if i >= primes.len() {
                assert(ord_roots(x as int, y as int, i as int, hi, ps) == 0);
                return sum;
            }
            let p = primes[i];
            if p > y {
                assert(ord_roots(x as int, y as int, i as int, hi, ps) == 0);
                return sum;
            }
            proof {
                let s = ps.subrange(1, ps.len() as int);
                assert(ps[i as int] == s[i - 1]);
                assert(crate::primality::is_prime(s[i - 1] as int));
            }
            let ghost f = phi_count(x as int / p as int, i - 1, ps);
            let ghost child = ord_abs(x as int, y as int, i + 1, hi, p as int, i - 1, ps);
            let ghost rest = ord_roots_abs(x as int, y as int, i + 1, hi, ps);
            proof {
                lemma_phi_bounds(x as int / p as int, i - 1, ps);
                lemma_ord_abs_bound(x as int, y as int, i + 1, hi, p as int, i - 1, 1, ps);
                lemma_ord_roots_abs_bound(x as int, y as int, i + 1, hi, ps);
                assert(done + f + child + rest == total);
            }
            let mut engine = PhiEngine::new();
            let phi = engine.eval(x / p, i - 1, primes, pi_table);
            sum = sum - phi as i64;
            let sub = ord_rec(x, y, i + 1, max_prime_idx, p, i - 1, 1, primes, pi_table);
            sum = sum + sub;
            i += 1;
            proof {
                done = done + f + child;
            }
        }
        sum
    }

    /// A(x, y) as `compute` gives it; the thread budget is accepted and the
    /// trees are evaluated on the calling thread.
    pub fn compute_mt(x: u64, y: u64, k: usize, primes: &[u64], pi_table: &PiTable, num_threads: usize) -> (r: i64)
        requires
            sentinel_prime_list(primes@),
            k + 1 < primes@.len(),
            primes@.len() < usize::MAX - 1,
            pi_table.valid(),
            ordinary_leaves_abs(x as int, y as int, k as int, primes@) <= i64::MAX,
        ensures
            r == ordinary_leaves_sum(x as int, y as int, k as int, primes@),
            prime_count(y as int) < primes@.len() ==> r == ordinary_leaves_direct(
                x as int,
                y as int,
                k as int,
                primes@,
            ),
    {
        Self::compute(x, y, k, primes, pi_table)
    }
}

/// The least d' in [d, n] that divides n (n itself when none below n does).
pub open spec fn least_factor_from(n: int, d: int) -> int
    decreases n - d,
{
    if d >= n {
        n
    } else if n % d == 0 {
        d
    } else {
        least_factor_from(n, d + 1)
    }
}

/// The least prime factor of n >= 2: its least divisor above 1.
pub open spec fn least_prime_factor(n: int) -> int {
    least_factor_from(n, 2)
}

/// The Mobius function: mu(1) = 1, and for n >= 2 with least prime factor
/// p, mu(n) = 0 when p^2 divides n, else -mu(n / p); so mu(n) is
/// (-1)^(number of prime factors) on squarefree n and 0 elsewhere.
pub open spec fn mobius(n: int) -> int
    decreases n,
{
    if n < 1 {
        0
    } else if n == 1 {
        1
    } else {
        let p = least_prime_factor(n);
        if p < 2 || p > n {
            0
        } else {
            proof {
                vstd::arithmetic::div_mod::lemma_div_decreases(n, p);
            }
            if (n / p) % p == 0 {
                0
            } else {
                -mobius(n / p)
            }
        }
    }
}

/// The ordinary leaf of m: mu(m) * phi(x / m, pi(lpf(m)) - 1) when the least
/// prime factor of m lies past P[k], else 0.
pub open spec fn ordinary_leaf_of(x: int, m: int, k: int, ps: Seq<u64>) -> int {
    let q = least_prime_factor(m);
    if prime_count(q) > k {
        mobius(m) * phi_count(x / m, prime_count(q) - 1, ps)
    } else {
        0
    }
}

/// A(x, y) taken integer by integer: the sum of the ordinary leaves of
/// m = 2, 3, ..., y.
pub open spec fn ordinary_leaves_direct(x: int, y: int, k: int, ps: Seq<u64>) -> int
    decreases y,
{
    if y < 2 {
        0
    } else {
        ordinary_leaves_direct(x, y - 1, k, ps) + ordinary_leaf_of(x, y, k, ps)
    }
}

/// The least factor found from d on divides n, and nothing in [2, it) does.
proof fn lemma_least_factor_from(n: int, d: int)
    requires
        2 <= d <= n,
        forall|e: int| 2 <= e < d ==> #[trigger] (n % e) != 0,
    ensures
        d <= least_factor_from(n, d) <= n,
        n % least_factor_from(n, d) == 0,
        forall|e: int| 2 <= e < least_factor_from(n, d) ==> #[trigger] (n % e) != 0,
    decreases n - d,
{
    if d >= n {
        vstd::arithmetic::div_mod::lemma_mod_self_0(n);
    } else if n % d != 0 {
        assert forall|e: int| 2 <= e < d + 1 implies #[trigger] (n % e) != 0 by {
            if e < d {
            }
        }
        lemma_least_factor_from(n, d + 1);
    }
}

/// lpf(n) is a prime that divides n, and no smaller integer above 1 does.
pub proof fn lemma_least_prime_factor(n: int)
    requires
        n >= 2,
    ensures
        2 <= least_prime_factor(n) <= n,
        n % least_prime_factor(n) == 0,
        is_prime(least_prime_factor(n)),
        forall|e: int| 2 <= e < least_prime_factor(n) ==> #[trigger] (n % e) != 0,
{
    lemma_least_factor_from(n, 2);
    let q = least_prime_factor(n);
    assert forall|d: int| 2 <= d < q implies #[trigger] (q % d) != 0 by {
        if q % d == 0 {
            lemma_divides_trans(d, q, n);
        }
    }
}

/// Any divisor d >= 2 of n is at least lpf(n).
pub proof fn lemma_least_prime_factor_le(n: int, d: int)
    requires
        n >= 2,
        d >= 2,
        n % d == 0,
    ensures
        least_prime_factor(n) <= d,
{
    lemma_least_prime_factor(n);
}

/// A prime is its own least prime factor, and mu(p) = -1.
pub proof fn lemma_mobius_prime(p: int)
    requires
        is_prime(p),
    ensures
        least_prime_factor(p) == p,
        mobius(p) == -1,
{
    lemma_least_prime_factor(p);
    let q = least_prime_factor(p);
    if q < p {
        assert(p % q != 0);
    }
    vstd::arithmetic::div_mod::lemma_div_by_self(p);
    vstd::arithmetic::div_mod::lemma_small_mod(1, p as nat);
    assert(p / p == 1);
    assert(1int % p == 1);
    assert(mobius(1) == 1);
    assert(mobius(p) == -mobius(p / p));
}

/// mu(p n) = -mu(n) for a prime p below every prime factor of n >= 2:
/// one more prime factor flips the sign.
pub proof fn lemma_mobius_prime_times(p: int, n: int)
    requires
        is_prime(p),
        n >= 2,
        p < least_prime_factor(n),
    ensures
        least_prime_factor(p * n) == p,
        mobius(p * n) == -mobius(n),
{
    lemma_least_prime_factor(n);
    let pn = p * n;
    assert(pn >= 2 && pn % p == 0) by {
        vstd::arithmetic::div_mod::lemma_mod_multiples_basic(n, p);
        assert(p * n == n * p) by (nonlinear_arith);
        assert(pn >= 2) by (nonlinear_arith)
            requires
                p >= 2,
                n >= 2,
                pn == p * n,
        ;
    }
    lemma_least_prime_factor(pn);
    let q = least_prime_factor(pn);
    lemma_least_prime_factor_le(pn, p);
    if q < p {
        // q divides p * n and is a prime other than p: it divides n.
        assert(is_prime(q));
        crate::phi::lemma_euclid(p, q, n);
        lemma_least_prime_factor_le(n, q);
    }
    assert(q == p);
    vstd::arithmetic::div_mod::lemma_div_multiples_vanish(n, p);
    assert(pn / p == n);
    if n % p == 0 {
        lemma_least_prime_factor_le(n, p);
    }
}

/// For y = m r with m, P > 0: m P divides y exactly when P divides r, and
/// then y / (m P) = r / P.
proof fn lemma_cancel_factor(m: int, r: int, p: int)
    requires
        m > 0,
        p > 0,
        r >= 0,
    ensures
        ((m * r) % (m * p) == 0) == (r % p == 0),
        r % p == 0 ==> (m * r) / (m * p) == r / p,
{
    let mp = m * p;
    assert(mp > 0) by (nonlinear_arith)
        requires
            m > 0,
            p > 0,
            mp == m * p,
    ;
    vstd::arithmetic::div_mod::lemma_fundamental_div_mod(r, p);
    vstd::arithmetic::div_mod::lemma_fundamental_div_mod(m * r, mp);
    let t = r / p;
    let u = (m * r) / mp;
    if r % p == 0 {
        assert(m * r == t * mp + 0) by (nonlinear_arith)
            requires
                r == p * t,
                mp == m * p,
        ;
        vstd::arithmetic::div_mod::lemma_fundamental_div_mod_converse(m * r, mp, t, 0);
    }
    if (m * r) % mp == 0 {
        assert(r == u * p + 0) by (nonlinear_arith)
            requires
                m * r == mp * u,
                mp == m * p,
                m > 0,
        ;
        vstd::arithmetic::div_mod::lemma_fundamental_div_mod_converse(r, p, u, 0);
    }
}

/// The facts about lpf(r) and lpf(r / P) that one level of the tree needs,
/// for a prime P dividing r < ... with r > P.
proof fn lemma_quotient_factor(r: int, p: int)
    requires
        is_prime(p),
        r > p,
        r % p == 0,
    ensures
        r / p >= 2,
        r / p < r,
        least_prime_factor(r) <= p,
        least_prime_factor(r) < p && r / p >= 2 ==> least_prime_factor(r / p) <= least_prime_factor(r),
        least_prime_factor(r) == p ==> ((r / p) % p == 0 ==> least_prime_factor(r / p) <= p),
        least_prime_factor(r) == p ==> ((r / p) % p != 0 ==> least_prime_factor(r / p) > p),
        least_prime_factor(r) == p ==> mobius(r) == if (r / p) % p == 0 { 0 } else { -mobius(r / p) },
{
    vstd::arithmetic::div_mod::lemma_fundamental_div_mod(r, p);
    let t = r / p;
    assert(t >= 2) by (nonlinear_arith)
        requires
            r == p * t + r % p,
            r % p == 0,
            r > p,
            p >= 2,
    ;
    vstd::arithmetic::div_mod::lemma_div_decreases(r, p);
    lemma_least_prime_factor(r);
    lemma_least_prime_factor_le(r, p);
    lemma_least_prime_factor(t);
    let q = least_prime_factor(r);
    // r is a multiple of t, so every divisor of t divides r.
    assert(r % t == 0) by {
        vstd::arithmetic::div_mod::lemma_mod_multiples_basic(p, t);
        assert(r == p * t);
    }
    let qt = least_prime_factor(t);
    lemma_divides_trans(qt, t, r);
    lemma_least_prime_factor_le(r, qt);
    if q < p {
        assert(is_prime(q));
        assert((p * t) % q == 0);
        crate::phi::lemma_euclid(p, q, t);
        lemma_least_prime_factor_le(t, q);
    }
    if q == p {
        if t % p == 0 {
            lemma_least_prime_factor_le(t, p);
        } else {
            if qt == p {
                assert(t % qt == 0);
            }
        }
    }
}

/// One level of the tree: how the leaves below m change from y - 1 to y.
/// Only a node whose product is y changes, and it exists exactly when
/// r = y / m >= 2 has every prime factor at or past P[j]; it then enters
/// with -sign * mu(r).
proof fn lemma_ord_spec_step(x: int, y: int, j: int, hi: int, m: int, a: int, sign: int, ps: Seq<u64>)
    requires
        sentinel_prime_list(ps),
        y >= 2,
        prime_count(y) < ps.len(),
        hi >= prime_count(y),
        j >= 1,
        m >= 1,
    ensures
        ord_spec(x, y, j, hi, m, a, sign, ps) - ord_spec(x, y - 1, j, hi, m, a, sign, ps) == if y % m == 0 && y / m
            >= 2 && prime_count(least_prime_factor(y / m)) >= j {
            -sign * mobius(y / m) * phi_count(x / y, a, ps)
        } else {
            0
        },
    decreases hi + 1 - j,
{
    let f = phi_count(x / y, a, ps);
    let r = y / m;
    if y % m == 0 && r >= 2 {
        lemma_least_prime_factor(r);
        vstd::arithmetic::div_mod::lemma_div_is_ordered_by_denominator(y, 1, m);
        lemma_prime_count_monotone(least_prime_factor(r), y);
    }
    if j > hi || j >= ps.len() {
        if y % m == 0 && r >= 2 {
            assert(prime_count(least_prime_factor(r)) < j);
        }
    } else {
        let p = ps[j] as int;
        crate::assembly::lemma_sentinel_prime(ps, j, p);
        let nm = m * p;
        if y % m == 0 {
            vstd::arithmetic::div_mod::lemma_fundamental_div_mod(y, m);
            assert(y == m * r);
        }
        if y % m == 0 && r >= 2 {
            crate::assembly::lemma_sentinel_prime(ps, j, least_prime_factor(r));
        }
        if nm > y {
            if y % m == 0 && r >= 2 {
                assert(p > r) by (nonlinear_arith)
                    requires
                        m * p > y,
                        y == m * r,
                        m >= 1,
                ;
                assert(least_prime_factor(r) < p);
            }
        } else if nm == y {
            assert(ord_spec(x, y, j + 1, hi, y, a, -sign, ps) == 0) by {
                if !(j + 1 > hi || j + 1 >= ps.len()) {
                    crate::assembly::lemma_sentinel_prime(ps, j + 1, 0);
                    assert(y * (ps[j + 1] as int) > y) by (nonlinear_arith)
                        requires
                            ps[j + 1] >= 2,
                            y >= 2,
                    ;
                }
            }
            assert(ord_spec(x, y, j + 1, hi, m, a, sign, ps) == 0) by {
                if !(j + 1 > hi || j + 1 >= ps.len()) {
                    crate::assembly::lemma_sentinel_prime(ps, j + 1, p);
                    assert(m * (ps[j + 1] as int) > m * p) by (nonlinear_arith)
                        requires
                            ps[j + 1] > p,
                            m >= 1,
                    ;
                }
            }
            vstd::arithmetic::div_mod::lemma_mod_multiples_basic(p, m);
            assert(y == p * m) by (nonlinear_arith)
                requires
                    y == m * p,
            ;
            vstd::arithmetic::div_mod::lemma_div_multiples_vanish(p, m);
            assert(r == p);
            lemma_mobius_prime(p);
        } else {
            assert(nm >= 1) by (nonlinear_arith)
                requires
                    p >= 2,
                    m >= 1,
                    nm == m * p,
            ;
            lemma_ord_spec_step(x, y, j + 1, hi, nm, a, -sign, ps);
            lemma_ord_spec_step(x, y, j + 1, hi, m, a, sign, ps);
            if y % m == 0 {
                lemma_cancel_factor(m, r, p);
                assert(r > p) by (nonlinear_arith)
                    requires
                        m * p < y,
                        y == m * r,
                        m >= 1,
                ;
                if r % p == 0 {
                    assert(y / nm == r / p);
                    lemma_quotient_factor(r, p);
                    let q = least_prime_factor(r);
                    let q2 = least_prime_factor(r / p);
                    lemma_least_prime_factor(r / p);
                    if q < p {
                        assert(prime_count(q) < j);
                        crate::assembly::lemma_sentinel_prime(ps, j, q2);
                        if prime_count(q2) >= j + 1 {
                            assert(p <= q2);
                        }
                    } else {
                        assert(q == p);
                        crate::leaf_sums::lemma_primes_equal_by_count(q, p);
                        crate::assembly::lemma_sentinel_prime(ps, j, q2);
                        if (r / p) % p != 0 {
                            assert(q2 > p);
                            if prime_count(q2) == j {
                                crate::leaf_sums::lemma_primes_equal_by_count(q2, p);
                            }
                            assert(prime_count(q2) >= j + 1);
                            assert(-(-sign) * mobius(r / p) * f == -sign * mobius(r) * f) by (nonlinear_arith)
                                requires
                                    mobius(r) == -mobius(r / p),
                            ;
                        } else {
                            assert(prime_count(q2) <= j);
                            assert(mobius(r) == 0);
                            assert(-sign * mobius(r) * f == 0) by (nonlinear_arith)
                                requires
                                    mobius(r) == 0,
                            ;
                        }
                    }
                } else {
                    let q = least_prime_factor(r);
                    if prime_count(q) == j {
                        crate::leaf_sums::lemma_primes_equal_by_count(q, p);
                        assert(r % q == 0);
                    }
                }
            } else {
                if y % nm == 0 {
                    vstd::arithmetic::div_mod::lemma_mod_multiples_basic(p, m);
                    assert(nm % m == 0) by {
                        assert(m * p == p * m) by (nonlinear_arith);
                    }
                    lemma_divides_trans(m, nm, y);
                }
            }
        }
    }
}

/// The hi bound of the tree does not matter once it reaches pi(y): the
/// primes past it exceed y.
proof fn lemma_ord_spec_hi(x: int, y: int, j: int, hi1: int, hi2: int, m: int, a: int, sign: int, ps: Seq<u64>)
    requires
        sentinel_prime_list(ps),
        y >= 0,
        prime_count(y) < ps.len(),
        hi1 >= prime_count(y),
        hi2 >= prime_count(y),
        m >= 1,
    ensures
        ord_spec(x, y, j, hi1, m, a, sign, ps) == ord_spec(x, y, j, hi2, m, a, sign, ps),
    decreases (if hi1 > hi2 { hi1 } else { hi2 }) + 1 - j,
{
    if j >= 1 && j < ps.len() {
        crate::assembly::lemma_sentinel_prime(ps, j, y);
        if j > prime_count(y) {
            assert(m * (ps[j] as int) > y) by (nonlinear_arith)
                requires
                    ps[j] > y,
                    m >= 1,
            ;
        } else {
            let nm = m * (ps[j] as int);
            assert(nm >= 1) by (nonlinear_arith)
                requires
                    ps[j] >= 2,
                    m >= 1,
                    nm == m * (ps[j] as int),
            ;
            lemma_ord_spec_hi(x, y, j + 1, hi1, hi2, nm, a, -sign, ps);
            lemma_ord_spec_hi(x, y, j + 1, hi1, hi2, m, a, sign, ps);
        }
    }
}

/// The same for the roots.
proof fn lemma_ord_roots_hi(x: int, y: int, i: int, hi1: int, hi2: int, ps: Seq<u64>)
    requires
        sentinel_prime_list(ps),
        y >= 0,
        prime_count(y) < ps.len(),
        hi1 >= prime_count(y),
        hi2 >= prime_count(y),
    ensures
        ord_roots(x, y, i, hi1, ps) == ord_roots(x, y, i, hi2, ps),
    decreases (if hi1 > hi2 { hi1 } else { hi2 }) + 1 - i,
{
    if i >= 1 && i < ps.len() {
        crate::assembly::lemma_sentinel_prime(ps, i, y);
        if i <= prime_count(y) {
            lemma_ord_spec_hi(x, y, i + 1, hi1, hi2, ps[i] as int, i - 1, 1, ps);
            lemma_ord_roots_hi(x, y, i + 1, hi1, hi2, ps);
        }
    }
}

/// How the roots from P[i] on change from y - 1 to y: by the leaf of y
/// when lpf(y) is P[i] or later.
proof fn lemma_ord_roots_step(x: int, y: int, i: int, hi: int, ps: Seq<u64>)
    requires
        sentinel_prime_list(ps),
        y >= 2,
        prime_count(y) < ps.len(),
        hi >= prime_count(y),
        i >= 1,
    ensures
        ord_roots(x, y, i, hi, ps) - ord_roots(x, y - 1, i, hi, ps) == if prime_count(least_prime_factor(y)) >= i {
            mobius(y) * phi_count(x / y, prime_count(least_prime_factor(y)) - 1, ps)
        } else {
            0
        },
    decreases hi + 1 - i,
{
    let q = least_prime_factor(y);
    lemma_least_prime_factor(y);
    lemma_prime_count_monotone(q, y);
    if i > hi || i >= ps.len() {
    } else {
        let p = ps[i] as int;
        crate::assembly::lemma_sentinel_prime(ps, i, q);
        crate::assembly::lemma_sentinel_prime(ps, i, y);
        if p > y {
        } else if p == y {
            assert(ord_spec(x, y, i + 1, hi, y, i - 1, 1, ps) == 0) by {
                if !(i + 1 > hi || i + 1 >= ps.len()) {
                    crate::assembly::lemma_sentinel_prime(ps, i + 1, 0);
                    assert(y * (ps[i + 1] as int) > y) by (nonlinear_arith)
                        requires
                            ps[i + 1] >= 2,
                            y >= 2,
                    ;
                }
            }
            assert(ord_roots(x, y, i + 1, hi, ps) == 0) by {
                if !(i + 1 > hi || i + 1 >= ps.len()) {
                    crate::assembly::lemma_sentinel_prime(ps, i + 1, p);
                }
            }
            lemma_mobius_prime(p);
            assert(q == p);
            assert(mobius(y) == -1);
            assert(prime_count(q) == i);
            let f = phi_count(x / y, i - 1, ps);
            assert((-1) * f == -f);
            assert(ord_roots(x, y - 1, i, hi, ps) == 0);
        } else {
            lemma_ord_spec_step(x, y, i + 1, hi, p, i - 1, 1, ps);
            lemma_ord_roots_step(x, y, i + 1, hi, ps);
            let f = phi_count(x / y, i - 1, ps);
            if y % p == 0 {
                lemma_quotient_factor(y, p);
                let q2 = least_prime_factor(y / p);
                lemma_least_prime_factor(y / p);
                crate::assembly::lemma_sentinel_prime(ps, i, q2);
                if q < p {
                    if prime_count(q2) >= i + 1 {
                        assert(p <= q2);
                    }
                } else {
                    assert(q == p);
                    if (y / p) % p != 0 {
                        if prime_count(q2) == i {
                            crate::leaf_sums::lemma_primes_equal_by_count(q2, p);
                        }
                        crate::leaf_sums::lemma_primes_equal_by_count(q, p);
                        assert(-1 * mobius(y / p) * f == mobius(y) * f) by (nonlinear_arith)
                            requires
                                mobius(y) == -mobius(y / p),
                        ;
                    } else {
                        crate::leaf_sums::lemma_primes_equal_by_count(q, p);
                        assert(mobius(y) * f == 0) by (nonlinear_arith)
                            requires
                                mobius(y) == 0,
                        ;
                    }
                }
            } else {
                if prime_count(q) == i {
                    crate::leaf_sums::lemma_primes_equal_by_count(q, p);
                }
            }
        }
    }
}

/// The ordinary leaves are the Mobius sum they stand for: over a 0-led
/// list of the primes that reaches y, A(x, y) with primes past P[k] is the
/// sum over m = 2, ..., y whose least prime factor lies past P[k] of
/// mu(m) * phi(x / m, pi(lpf(m)) - 1), with mu(m) = (-1)^(number of prime
/// factors) on squarefree m and 0 elsewhere.
pub proof fn lemma_ordinary_leaves_are_mobius_sum(x: int, y: int, k: int, ps: Seq<u64>)
    requires
        sentinel_prime_list(ps),
        0 <= k,
        k + 1 < ps.len(),
        y >= 0,
        prime_count(y) < ps.len(),
    ensures
        ordinary_leaves_sum(x, y, k, ps) == ordinary_leaves_direct(x, y, k, ps),
    decreases y,
{
    crate::assembly::lemma_sentinel_prime(ps, k + 1, y);
    if y >= 2 {
        lemma_prime_count_monotone(y - 1, y);
        lemma_ordinary_leaves_are_mobius_sum(x, y - 1, k, ps);
        let q = least_prime_factor(y);
        lemma_least_prime_factor(y);
        crate::assembly::lemma_sentinel_prime(ps, k + 1, q);
        if y < ps[k + 1] {
        } else {
            let s = strip_sentinel(ps);
            assert(s == ps.subrange(1, ps.len() as int));
            crate::primality::lemma_prime_list_count(s, y);
            crate::primality::lemma_prime_list_count(s, y - 1);
            let hi = ord_last_index(y, ps);
            let hi0 = ord_last_index(y - 1, ps);
            lemma_ord_roots_step(x, y, k + 1, hi, ps);
            if y - 1 < ps[k + 1] {
                assert(ord_roots(x, y - 1, k + 1, hi, ps) == 0);
            } else {
                lemma_ord_roots_hi(x, y - 1, k + 1, hi, hi0, ps);
            }
        }
    }
}

} // verus!
