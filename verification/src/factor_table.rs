//! Greatest prime factor of every m <= y, filled by a sieve in which larger
//! primes overwrite smaller ones.
use vstd::prelude::*;
use crate::primality::{is_prime, lemma_small_prime_factor};
use vstd::arithmetic::div_mod::{lemma_fundamental_div_mod, lemma_mod_multiples_basic};

verus! {

/// The largest prime q < bound dividing k, or 0 if there is none.
pub open spec fn largest_prime_factor_below(k: int, bound: int) -> int
    decreases bound,
{
    if bound <= 2 {
        0
    } else if is_prime(bound - 1) && k % (bound - 1) == 0 {
        bound - 1
    } else {
        largest_prime_factor_below(k, bound - 1)
    }
}

/// `g` is the greatest prime factor of m (1 for m = 1).
pub open spec fn is_gpf(m: int, g: int) -> bool {
    if m <= 1 {
        g == 1
    } else {
        &&& is_prime(g)
        &&& m % g == 0
        &&& forall|q: int| #[trigger] is_prime(q) && m % q == 0 ==> q <= g
    }
}

/// What largest_prime_factor_below says: 0 exactly when no prime below the
/// bound divides k, else the largest such prime.
proof fn lemma_lpf_below(k: int, bound: int)
    ensures
        largest_prime_factor_below(k, bound) == 0 <==> forall|q: int|
            #[trigger] is_prime(q) && q < bound ==> k % q != 0,
        largest_prime_factor_below(k, bound) != 0 ==> {
            let g = largest_prime_factor_below(k, bound);
            &&& is_prime(g)
            &&& g < bound
            &&& k % g == 0
            &&& forall|q: int| #[trigger] is_prime(q) && q < bound && k % q == 0 ==> q <= g
        },
    decreases bound,
{
    if bound > 2 {
        lemma_lpf_below(k, bound - 1);
    } else {
        assert forall|q: int| #[trigger] is_prime(q) && q < bound implies k % q != 0 by {}
    }
}

/// A number >= 2 is prime exactly when no prime below it divides it.
proof fn lemma_prime_by_smaller(p: int)
    requires
        p >= 2,
    ensures
        is_prime(p) <==> forall|q: int| #[trigger] is_prime(q) && q < p ==> p % q != 0,
{
    if !is_prime(p) {
        let q = lemma_small_prime_factor(p);
        assert(q < p) by (nonlinear_arith)
            requires
                q * q <= p,
                q >= 2,
        ;
    }
}

/// Greatest prime factors of 1..=limit.
pub struct CompressedFactorTable {
    pub limit: u64,
    pub gpf: Vec<u32>,
}

impl CompressedFactorTable {
    /// Every entry from 1 to the limit is the greatest prime factor of its index.
    pub open spec fn valid(&self) -> bool {
        &&& self.gpf@.len() == self.limit + 1
        &&& forall|m: int| 1 <= m <= self.limit ==> #[trigger] is_gpf(m, self.gpf@[m] as int)
    }

    /// Sieves the greatest prime factor of every m in [1, y].
    pub fn new(y: usize) -> (t: Self)
        requires
            y < 0x8000_0000,
        ensures
            t.valid(),
            t.limit == y,
    {
        let n = y;
        let mut g: Vec<u32> = Vec::new();
        let mut k: usize = 0;
        while k <= n
            invariant
                k <= n + 1,
                n < 0x8000_0000,
                g@.len() == k,
                forall|j: int| 0 <= j < k ==> #[trigger] g@[j] == 0,
            decreases n + 1 - k,
        {
            g.push(0);
            k += 1;
        }
        let mut p: usize = 2;
        proof {
            assert forall|j: int| 1 <= j <= n implies #[trigger] g@[j] == largest_prime_factor_below(j, 2) by {}
        }
        while p <= n
            invariant
                2 <= p <= n + 2,
                n < 0x8000_0000,
                g@.len() == n + 1,
                forall|j: int| 1 <= j <= n ==> #[trigger] g@[j] == largest_prime_factor_below(j, p as int),
            decreases n + 1 - p,
        {
            proof {
                lemma_lpf_below(p as int, p as int);
                lemma_prime_by_smaller(p as int);
            }
            if g[p] == 0 {
                // p is prime: every multiple of p now has p as its largest
                // prime factor so far.
                let ghost before = g@;
                let mut m = p;
                let ghost mut t: int = 1;
                proof {
                    assert forall|j: int| 1 <= j < p implies #[trigger] (j % (p as int)) != 0 by {
                        vstd::arithmetic::div_mod::lemma_small_mod(j as nat, p as nat);
                    }
                }
                while m <= n
                    invariant
                        2 <= p <= n,
                        n < 0x8000_0000,
                        is_prime(p as int),
                        g@.len() == n + 1,
                        before.len() == n + 1,
                        m == t * p,
                        t >= 1,
                        forall|j: int|
                            1 <= j <= n ==> #[trigger] g@[j] == if j < m && j % (p as int) == 0 {
                                p as int
                            } else {
                                before[j] as int
                            },
                    decreases n + p - m,
                {
                    let ghost old_g = g@;
                    g.set(m, p as u32);
                    proof {
                        lemma_mod_multiples_basic(t, p as int);
                        assert forall|j: int| 1 <= j <= n implies #[trigger] g@[j] == if j < m + p && j % (
                        p as int) == 0 {
                            p as int
                        } else {
                            before[j] as int
                        } by {
                            if j != m {
                                assert(g@[j] == old_g[j]);
                                if m < j < m + p && j % (p as int) == 0 {
                                    lemma_fundamental_div_mod(j, p as int);
                                    let u = j / (p as int);
                                    assert(false) by (nonlinear_arith)
                                        requires
                                            j == p * u,
                                            m == t * p,
                                            m < j < m + p,
                                            p > 0,
                                    ;
                                }
                            }
                        }
                    }
                    m = m + p;
                    proof {
                        t = t + 1;
                        assert(m == t * p) by (nonlinear_arith)
                            requires
                                m == (t - 1) * p + p,
                        ;
                    }
                }
                proof {
                    assert forall|j: int| 1 <= j <= n implies #[trigger] g@[j] == largest_prime_factor_below(
                        j,
                        p + 1,
                    ) by {}
                }
            } else {
                proof {
                    assert forall|j: int| 1 <= j <= n implies #[trigger] g@[j] == largest_prime_factor_below(
                        j,
                        p + 1,
                    ) by {}
                }
            }
            p += 1;
        }
        if n >= 1 {
            g.set(1, 1);
        }
        proof {
            assert forall|m: int| 1 <= m <= n implies #[trigger] is_gpf(m, g@[m] as int) by {
                if m >= 2 {
                    lemma_lpf_below(m, p as int);
                    let q0 = if is_prime(m) { m } else { lemma_small_prime_factor(m) };
                    if q0 == m {
                        lemma_mod_multiples_basic(1, m);
                    }
                    assert(q0 <= m) by (nonlinear_arith)
                        requires
                            q0 == m || q0 * q0 <= m,
                            q0 >= 2,
                    ;
                    assert(is_prime(q0) && q0 < p && m % q0 == 0);
                    assert forall|q: int| #[trigger] is_prime(q) && m % q == 0 implies q <= g@[m] by {
                        if q >= p {
                            lemma_fundamental_div_mod(m, q);
                            assert(m % q == m) by {
                                vstd::arithmetic::div_mod::lemma_small_mod(m as nat, q as nat);
                            }
                        }
                    }
                }
            }
        }
        CompressedFactorTable { limit: y as u64, gpf: g }
    }

    /// The greatest prime factor of m (1 for m = 1).
    pub fn gpf(&self, m: u64) -> (r: u64)
        requires
            self.valid(),
            1 <= m <= self.limit,
        ensures
            is_gpf(m as int, r as int),
            r == self.gpf@[m as int],
    {
        let n = self.gpf.len();
        assert(m < n);
        self.gpf[m as usize] as u64
    }
}

} // verus!
