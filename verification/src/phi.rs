//! Legendre's phi(x, a): the integers in [1, x] divisible by none of the
//! first a primes, evaluated by the recursion
//! phi(x, a) = phi(x, a - 1) - phi(x / p_a, a - 1).
use vstd::prelude::*;
use crate::pi_table::PiTable;
use crate::primality::{
    is_prime, prime_count, sentinel_prime_list, lemma_small_prime_factor, lemma_prime_count_step,
    lemma_prime_count_monotone, lemma_prime_count_bound,
};
use crate::leaf_sums::{lemma_primes_equal_by_count, range_sum};
use vstd::arithmetic::div_mod::{lemma_fundamental_div_mod, lemma_mod_multiples_basic};

verus! {

/// gcd by Euclid's algorithm.
pub open spec fn gcd(m: int, n: int) -> int
    decreases n,
{
    if n <= 0 {
        m
    } else {
        gcd(n, m % n)
    }
}

/// `m` is a multiple of `d`.
pub open spec fn divides(d: int, m: int) -> bool {
    d > 0 && m % d == 0
}

/// Sums of multiples of q*? : if q divides a * k and b * k, it divides
/// (a mod b) * k.
proof fn lemma_mod_keeps_multiple(a: int, b: int, k: int, q: int)
    requires
        a >= 0,
        b > 0,
        k >= 0,
        q > 0,
        (a * k) % q == 0,
        (b * k) % q == 0,
    ensures
        ((a % b) * k) % q == 0,
{
    lemma_fundamental_div_mod(a, b);
    let t = a / b;
    let r = a % b;
    assert(a * k == t * (b * k) + r * k) by (nonlinear_arith)
        requires
            a == b * t + r,
    ;
    lemma_fundamental_div_mod(a * k, q);
    lemma_fundamental_div_mod(b * k, q);
    let u = (a * k) / q;
    let w = (b * k) / q;
    assert(r * k == (u - t * w) * q) by (nonlinear_arith)
        requires
            a * k == t * (b * k) + r * k,
            a * k == q * u,
            b * k == q * w,
    ;
    lemma_mod_multiples_basic(u - t * w, q);
}

/// If q divides m * k and n * k, it divides gcd(m, n) * k.
proof fn lemma_gcd_keeps_multiple(m: int, n: int, k: int, q: int)
    requires
        m >= 0,
        n >= 0,
        k >= 0,
        q > 0,
        (m * k) % q == 0,
        (n * k) % q == 0,
    ensures
        (gcd(m, n) * k) % q == 0,
    decreases n,
{
    if n > 0 {
        lemma_mod_keeps_multiple(m, n, k, q);
        lemma_gcd_keeps_multiple(n, m % n, k, q);
    }
}

/// gcd(m, n) divides m and n.
proof fn lemma_gcd_divides(m: int, n: int)
    requires
        m > 0,
        n >= 0,
    ensures
        gcd(m, n) > 0,
        m % gcd(m, n) == 0,
        n % gcd(m, n) == 0,
    decreases n,
{
    if n > 0 {
        lemma_fundamental_div_mod(m, n);
        if m % n == 0 {
            assert(gcd(n, 0) == n);
            assert(gcd(m, n) == gcd(n, m % n));
            lemma_mod_multiples_basic(1, n);
            assert(1 * n == n);
        } else {
            lemma_gcd_divides(n, m % n);
            let g = gcd(n, m % n);
            // m = (m / n) * n + m % n, both multiples of g.
            lemma_fundamental_div_mod(n, g);
            lemma_fundamental_div_mod(m % n, g);
            let a = n / g;
            let c = (m % n) / g;
            assert(m == ((m / n) * a + c) * g) by (nonlinear_arith)
                requires
                    m == n * (m / n) + m % n,
                    n == g * a,
                    m % n == g * c,
            ;
            lemma_mod_multiples_basic((m / n) * a + c, g);
        }
    } else {
        lemma_mod_multiples_basic(0, m);
        lemma_mod_multiples_basic(1, m);
    }
}

/// The positive divisors of a prime q are 1 and q.
proof fn lemma_prime_divisor(q: int, d: int)
    requires
        is_prime(q),
        d > 0,
        q % d == 0,
    ensures
        d == 1 || d == q,
{
    if d > q {
        lemma_fundamental_div_mod(q, d);
        assert(q % d == q) by {
            vstd::arithmetic::div_mod::lemma_small_mod(q as nat, d as nat);
        }
    }
    if 2 <= d < q {
        assert(q % d != 0);
    }
}

/// Euclid: a prime q that divides p * k for a different prime p divides k.
pub proof fn lemma_euclid(p: int, q: int, k: int)
    requires
        is_prime(p),
        is_prime(q),
        p != q,
        k >= 0,
        (p * k) % q == 0,
    ensures
        k % q == 0,
{
    lemma_mod_multiples_basic(k, q);
    assert((q * k) % q == 0) by {
        assert(q * k == k * q) by (nonlinear_arith);
    }
    lemma_gcd_keeps_multiple(q, p, k, q);
    lemma_gcd_divides(q, p);
    let g = gcd(q, p);
    lemma_prime_divisor(q, g);
    lemma_prime_divisor(p, g);
    assert(g == 1);
    assert(1 * k == k);
}

/// n is divisible by none of P[1], ..., P[a].
pub open spec fn rough(n: int, a: int, primes: Seq<u64>) -> bool {
    forall|i: int| 1 <= i <= a ==> #[trigger] (n % (primes[i] as int)) != 0
}

/// phi(x, a): the integers in [1, x] divisible by none of P[1..a].
pub open spec fn phi_count(x: int, a: int, primes: Seq<u64>) -> int
    decreases x,
{
    if x < 1 {
        0
    } else {
        phi_count(x - 1, a, primes) + if rough(x, a, primes) { 1int } else { 0int }
    }
}

/// 0 <= phi(x, a) <= max(x, 0), and phi(x, 0) = x.
pub proof fn lemma_phi_bounds(x: int, a: int, primes: Seq<u64>)
    ensures
        0 <= phi_count(x, a, primes) <= if x < 0 { 0 } else { x },
        a <= 0 && x >= 0 ==> phi_count(x, a, primes) == x,
    decreases x,
{
    if x >= 1 {
        lemma_phi_bounds(x - 1, a, primes);
    }
}

/// For p = P[a], a multiple p k is free of P[1..a-1] exactly when k is.
proof fn lemma_rough_multiple(k: int, a: int, primes: Seq<u64>)
    requires
        sentinel_prime_list(primes),
        1 <= a < primes.len(),
        k >= 1,
    ensures
        rough(primes[a] * k, a - 1, primes) <==> rough(k, a - 1, primes),
{
    let s = primes.subrange(1, primes.len() as int);
    let p = primes[a] as int;
    assert(primes[a] == s[a - 1]);
    assert(is_prime(p) && prime_count(p) == a);
    if rough(k, a - 1, primes) {
        assert forall|i: int| 1 <= i <= a - 1 implies #[trigger] ((p * k) % (primes[i] as int)) != 0 by {
            let q = primes[i] as int;
            assert(primes[i] == s[i - 1]);
            assert(is_prime(q) && prime_count(q) == i);
            if (p * k) % q == 0 {
                lemma_euclid(p, q, k);
                assert(k % (primes[i] as int) == 0);
            }
        }
    } else {
        let i = choose|i: int| 1 <= i <= a - 1 && #[trigger] (k % (primes[i] as int)) == 0;
        let q = primes[i] as int;
        assert(primes[i] == s[i - 1]);
        assert(is_prime(q));
        lemma_fundamental_div_mod(k, q);
        assert(p * k == (p * (k / q)) * q) by (nonlinear_arith)
            requires
                k == q * (k / q) + k % q,
                k % q == 0,
        ;
        lemma_mod_multiples_basic(p * (k / q), q);
        assert((p * k) % (primes[i] as int) == 0);
    }
}

/// Legendre's recursion: phi(x, a) = phi(x, a - 1) - phi(x / P[a], a - 1).
pub proof fn lemma_phi_recursion(x: int, a: int, primes: Seq<u64>)
    requires
        sentinel_prime_list(primes),
        1 <= a < primes.len(),
        x >= 0,
    ensures
        phi_count(x, a, primes) == phi_count(x, a - 1, primes) - phi_count(x / (primes[a] as int), a - 1, primes),
    decreases x,
{
    let s = primes.subrange(1, primes.len() as int);
    let p = primes[a] as int;
    assert(primes[a] == s[a - 1]);
    assert(is_prime(p));
    if x >= 1 {
        lemma_phi_recursion(x - 1, a, primes);
        lemma_fundamental_div_mod(x, p);
        lemma_fundamental_div_mod(x - 1, p);
        // rough(x, a) = rough(x, a - 1) and p does not divide x.
        assert(rough(x, a, primes) <==> (rough(x, a - 1, primes) && x % p != 0)) by {
            if rough(x, a - 1, primes) && x % p != 0 {
                assert forall|i: int| 1 <= i <= a implies #[trigger] (x % (primes[i] as int)) != 0 by {
                    if i < a {
                        assert(x % (primes[i] as int) != 0);
                    }
                }
            }
            if rough(x, a, primes) {
                assert(x % (primes[a] as int) != 0);
                assert forall|i: int| 1 <= i <= a - 1 implies #[trigger] (x % (primes[i] as int)) != 0 by {
                    assert(x % (primes[i] as int) != 0);
                }
            }
        }
        if x % p == 0 {
            let k = x / p;
            assert((x - 1) / p == k - 1) by {
                assert(x - 1 == (k - 1) * p + (p - 1)) by (nonlinear_arith)
                    requires
                        x == p * k + 0,
                ;
                vstd::arithmetic::div_mod::lemma_fundamental_div_mod_converse(x - 1, p, k - 1, p - 1);
            }
            assert(k >= 1) by (nonlinear_arith)
                requires
                    x == p * k + 0,
                    x >= 1,
                    p >= 2,
            ;
            assert(x == p * k);
            lemma_rough_multiple(k, a, primes);
        } else {
            assert((x - 1) / p == x / p) by {
                vstd::arithmetic::div_mod::lemma_fundamental_div_mod_converse(x - 1, p, x / p, x % p - 1);
            }
        }
    } else {
        assert(x / p == 0);
    }
}

/// Below P[a + 1] only 1 is free of P[1..a].
pub proof fn lemma_phi_below_next_prime(x: int, a: int, primes: Seq<u64>)
    requires
        sentinel_prime_list(primes),
        0 <= a,
        a + 1 < primes.len(),
        0 <= x < primes[a + 1],
    ensures
        phi_count(x, a, primes) == if x >= 1 { 1int } else { 0int },
    decreases x,
{
    if x >= 2 {
        lemma_phi_below_next_prime(x - 1, a, primes);
        assert(!rough(x, a, primes)) by {
            let q = if is_prime(x) { x } else { lemma_small_prime_factor(x) };
            if q == x {
                lemma_mod_multiples_basic(1, x);
            }
            assert(x % q == 0);
            assert(q <= x) by (nonlinear_arith)
                requires
                    q == x || q * q <= x,
                    q >= 2,
            ;
            lemma_prime_index(q, a, primes);
        }
    } else if x == 1 {
        assert(phi_count(0, a, primes) == 0);
        assert(rough(1, a, primes)) by {
            assert forall|i: int| 1 <= i <= a implies #[trigger] (1int % (primes[i] as int)) != 0 by {
                let s = primes.subrange(1, primes.len() as int);
                assert(primes[i] == s[i - 1]);
                assert(is_prime(primes[i] as int));
                vstd::arithmetic::div_mod::lemma_small_mod(1, primes[i] as nat);
            }
        }
    }
}

/// A prime q below P[a + 1] is P[i] for some 1 <= i <= a; so q divides
/// every multiple of q, and such a multiple is not free of P[1..a].
proof fn lemma_prime_index(q: int, a: int, primes: Seq<u64>)
    requires
        sentinel_prime_list(primes),
        0 <= a,
        a + 1 < primes.len(),
        is_prime(q),
        q < primes[a + 1],
    ensures
        1 <= prime_count(q) <= a,
        primes[prime_count(q) as int] == q,
        forall|n: int| n % q == 0 ==> !rough(n, a, primes),
{
    let s = primes.subrange(1, primes.len() as int);
    let nxt = primes[a + 1] as int;
    assert(primes[a + 1] == s[a]);
    assert(is_prime(nxt) && prime_count(nxt) == a + 1);
    lemma_prime_count_step(nxt);
    lemma_prime_count_monotone(q, nxt - 1);
    lemma_prime_count_step(q);
    lemma_prime_count_monotone(0, q - 1);
    let i = prime_count(q) as int;
    assert(primes[i] == s[i - 1]);
    assert(is_prime(s[i - 1] as int) && prime_count(s[i - 1] as int) == i);
    lemma_primes_equal_by_count(s[i - 1] as int, q);
    assert forall|n: int| n % q == 0 implies !rough(n, a, primes) by {
        assert(n % (primes[i] as int) == 0);
    }
}

/// Below P[a + 1]^2 the integers free of P[1..a] are 1 and the primes above
/// P[a]: phi(x, a) = pi(x) - a + 1 for P[a] <= x < P[a + 1]^2.
pub proof fn lemma_phi_below_square(x: int, a: int, primes: Seq<u64>)
    requires
        sentinel_prime_list(primes),
        1 <= a,
        a + 1 < primes.len(),
        primes[a] <= x < primes[a + 1] * primes[a + 1],
    ensures
        phi_count(x, a, primes) == prime_count(x) - a + 1,
    decreases x,
{
    let s = primes.subrange(1, primes.len() as int);
    let pa = primes[a] as int;
    assert(primes[a] == s[a - 1]);
    assert(is_prime(pa) && prime_count(pa) == a);
    assert(primes[a + 1] == s[a]);
    assert(s[a - 1] < s[a]) by {
        crate::primality::lemma_prime_list_sorted(s);
    }
    if x == pa {
        lemma_phi_below_next_prime(x - 1, a, primes);
        lemma_prime_index(pa, a, primes);
        lemma_mod_multiples_basic(1, pa);
        assert(!rough(x, a, primes));
    } else {
        lemma_phi_below_square(x - 1, a, primes);
        lemma_prime_count_step(x);
        assert(rough(x, a, primes) <==> is_prime(x)) by {
            if is_prime(x) {
                assert forall|i: int| 1 <= i <= a implies #[trigger] (x % (primes[i] as int)) != 0 by {
                    let q = primes[i] as int;
                    assert(primes[i] == s[i - 1]);
                    assert(is_prime(q) && prime_count(q) == i);
                    crate::primality::lemma_prime_list_sorted(s);
                    if i < a {
                        assert(s[i - 1] < s[a - 1]);
                    }
                    lemma_prime_count_monotone(q, pa);
                    if q == x {
                        assert(prime_count(x) == i);
                        lemma_prime_count_monotone(pa, x - 1);
                        lemma_prime_count_step(x);
                    }
                    if x % q == 0 {
                        lemma_prime_divisor(x, q);
                    }
                }
            } else {
                let q = lemma_small_prime_factor(x);
                let nxt = primes[a + 1] as int;
                if q >= nxt {
                    assert(q * q >= nxt * nxt) by (nonlinear_arith)
                        requires
                            q >= nxt,
                            nxt >= 0,
                    ;
                }
                lemma_prime_index(q, a, primes);
            }
        }
    }
}

/// A prime q with pi(q) < len sits at its own index: P[pi(q)] = q.
pub proof fn lemma_prime_at_count(q: int, primes: Seq<u64>)
    requires
        sentinel_prime_list(primes),
        is_prime(q),
        prime_count(q) < primes.len(),
    ensures
        1 <= prime_count(q),
        primes[prime_count(q) as int] == q,
{
    let s = primes.subrange(1, primes.len() as int);
    lemma_prime_count_step(q);
    let j = prime_count(q) - 1;
    assert(prime_count(q) >= 1);
    crate::primality::lemma_prime_list_index(s, j, q);
    crate::primality::lemma_prime_list_index(s, j, q - 1);
    assert(primes[j + 1] == s[j]);
}

/// With no prime in (r, p] dividing anything: when every prime up to
/// sqrt(x) is among the first k (pi(r) <= k for an r with x < (r + 1)^2),
/// the integers of [1, x] free of P[1..k] are 1 and the primes above P[k]:
/// phi(x, k) = [x >= 1] + max(pi(x) - k, 0).
pub proof fn lemma_phi_rough_cut(x: int, k: int, r: int, primes: Seq<u64>)
    requires
        sentinel_prime_list(primes),
        0 <= k < primes.len(),
        r >= 0,
        x < (r + 1) * (r + 1),
        prime_count(r) <= k,
    ensures
        phi_count(x, k, primes) == (if x >= 1 { 1int } else { 0int }) + (if prime_count(x) > k {
            prime_count(x) - k
        } else {
            0int
        }),
    decreases x,
{
    let s = primes.subrange(1, primes.len() as int);
    if x <= 0 {
        assert(prime_count(x) == 0);
    } else if x == 1 {
        assert(phi_count(0, k, primes) == 0);
        assert(prime_count(1) == 0) by {
            assert(prime_count(0) == 0);
        }
        assert(rough(1, k, primes)) by {
            assert forall|i: int| 1 <= i <= k implies #[trigger] (1int % (primes[i] as int)) != 0 by {
                assert(primes[i] == s[i - 1]);
                assert(is_prime(primes[i] as int));
                vstd::arithmetic::div_mod::lemma_small_mod(1, primes[i] as nat);
            }
        }
    } else {
        lemma_phi_rough_cut(x - 1, k, r, primes);
        lemma_prime_count_step(x);
        if is_prime(x) {
            if prime_count(x) <= k {
                lemma_prime_at_count(x, primes);
                let j = prime_count(x) as int;
                lemma_mod_multiples_basic(1, x);
                assert((x % (primes[j] as int)) == 0);
                assert(!rough(x, k, primes));
            } else {
                assert(rough(x, k, primes)) by {
                    assert forall|i: int| 1 <= i <= k implies #[trigger] (x % (primes[i] as int)) != 0 by {
                        let q = primes[i] as int;
                        assert(primes[i] == s[i - 1]);
                        assert(is_prime(q) && prime_count(q) == i);
                        if x % q == 0 {
                            lemma_prime_divisor(x, q);
                        }
                    }
                }
            }
        } else {
            let q = lemma_small_prime_factor(x);
            assert(q <= r) by (nonlinear_arith)
                requires
                    q * q <= x,
                    x < (r + 1) * (r + 1),
                    q >= 2,
                    r >= 0,
            ;
            lemma_prime_count_monotone(q, r);
            lemma_prime_at_count(q, primes);
            let j = prime_count(q) as int;
            assert((x % (primes[j] as int)) == 0);
            assert(!rough(x, k, primes));
        }
    }
}

/// The terms of Buchstab's identity: k -> phi(y / P[k], k - 1).
pub open spec fn buchstab_term(y: int, primes: Seq<u64>) -> spec_fn(int) -> int {
    |k: int| phi_count(y / (primes[k] as int), k - 1, primes)
}

/// Buchstab's identity, Legendre's recursion unrolled from lo to hi:
/// phi(y, lo - 1) = phi(y, hi) + sum over lo <= k <= hi of phi(y / P[k], k - 1).
pub proof fn lemma_phi_telescope(y: int, lo: int, hi: int, primes: Seq<u64>)
    requires
        sentinel_prime_list(primes),
        1 <= lo <= hi + 1,
        hi < primes.len(),
        y >= 0,
    ensures
        phi_count(y, lo - 1, primes) == phi_count(y, hi, primes) + range_sum(lo, hi + 1, buchstab_term(y, primes)),
    decreases hi + 1 - lo,
{
    if hi >= lo {
        lemma_phi_telescope(y, lo, hi - 1, primes);
        lemma_phi_recursion(y, hi, primes);
    }
}

/// Evaluates phi(x, a) over a 0-led list of the primes in order.
pub struct PhiEngine {}

impl PhiEngine {
    /// A fresh engine.
    pub fn new() -> (e: Self) {
        PhiEngine {}
    }

    /// phi(x, a): the integers in [1, x] divisible by none of the first a
    /// primes.
    pub fn eval(&mut self, x: u64, a: usize, primes: &[u64], pi_table: &PiTable) -> (r: u64)
        requires
            sentinel_prime_list(primes@),
            a < primes@.len(),
            pi_table.valid(),
        ensures
            r == phi_count(x as int, a as int, primes@),
    {
        phi_rec(x, a, primes, pi_table)
    }
}

/// Legendre's recursion, cut short below P[a + 1] (only 1 is left) and
/// below P[a + 1]^2 within the table (1 and the primes above P[a]).
fn phi_rec(x: u64, a: usize, primes: &[u64], pi_table: &PiTable) -> (r: u64)
    requires
        sentinel_prime_list(primes@),
        a < primes@.len(),
        pi_table.valid(),
    ensures
        r == phi_count(x as int, a as int, primes@),
    decreases a,
{
    let ghost ps = primes@;
    if a == 0 {
        proof {
            lemma_phi_bounds(x as int, 0, ps);
        }
        return x;
    }
    if x == 0 {
        return 0;
    }
    proof {
        let s = ps.subrange(1, ps.len() as int);
        assert(ps[a as int] == s[a - 1]);
        assert(is_prime(ps[a as int] as int));
    }
    if a < primes.len() - 1 {
        let nxt = primes[a + 1];
        if x < nxt {
            proof {
                lemma_phi_below_next_prime(x as int, a as int, ps);
            }
            return 1;
        }
        let pa = primes[a];
        let nw = nxt as u128;
        assert(nw * nw <= 0xffff_ffff_ffff_fffe_0000_0000_0000_0001) by (nonlinear_arith)
            requires
                nw <= u64::MAX,
        ;
        if x >= pa && x <= pi_table.max_y && nw * nw > x as u128 {
            proof {
                lemma_phi_below_square(x as int, a as int, ps);
                lemma_phi_bounds(x as int, a as int, ps);
                let s = ps.subrange(1, ps.len() as int);
                assert(ps[a as int] == s[a - 1]);
                assert(prime_count(pa as int) == a);
                lemma_prime_count_monotone(pa as int, x as int);
                lemma_prime_count_bound(x as int);
            }
            return pi_table.pi(x) - a as u64 + 1;
        }
    }
    let p = primes[a];
    let keep = phi_rec(x, a - 1, primes, pi_table);
    let drop = phi_rec(x / p, a - 1, primes, pi_table);
    proof {
        lemma_phi_recursion(x as int, a as int, ps);
        lemma_phi_bounds(x as int, a as int, ps);
    }
    keep - drop
}

} // verus!
