//! Exact division by a fixed divisor, prepared once per divisor and reused
//! for every numerator up to a declared maximum.
use vstd::prelude::*;

verus! {

/// Divisor prepared for repeated exact division of numerators `<= max_n`:
/// besides the divisor it holds the reciprocal `mul = floor((2^64 - 1) / d)`,
/// so that a quotient is one widening multiply and a high-half take,
/// followed by a correction against the divisor.
#[derive(Clone, Copy)]
pub struct FastDiv64 {
    pub divisor: u64,
    pub max_n: u64,
    pub mul: u64,
}

/// 2^64, the scale of the reciprocal.
pub open spec fn reciprocal_scale() -> int {
    0x1_0000_0000_0000_0000
}

impl FastDiv64 {
    /// Prepares division by `d` for numerators up to `max_n`.
    pub fn new(d: u64, max_n: u64) -> (r: Self)
        ensures
            r.divisor == d,
            r.max_n == max_n,
            r.mul == if d == 0 { 0 } else { u64::MAX / d },
    {
        let mul = if d == 0 {
            0
        } else {
            u64::MAX / d
        };
        FastDiv64 { divisor: d, max_n, mul }
    }

    /// `n / divisor`: the high half of `n * mul`, then stepped to the
    /// quotient. With the reciprocal that `new` prepares the high half is
    /// the quotient or one below it; the steps make the result exact
    /// whatever `mul` holds.
    pub fn div(&self, n: u64) -> (q: u64)
        requires
            self.divisor > 0,
            n <= self.max_n,
        ensures
            q == n / self.divisor,
    {
        let d = self.divisor as u128;
        let nn = n as u128;
        let mu = self.mul as u128;
        proof {
            assert(nn * mu <= 0xffff_ffff_ffff_ffff * 0xffff_ffff_ffff_ffff) by (nonlinear_arith)
                requires
                    0 <= nn <= 0xffff_ffff_ffff_ffff,
                    0 <= mu <= 0xffff_ffff_ffff_ffff,
            ;
        }
        let prod = nn * mu;
        let mut q: u128 = prod / 0x1_0000_0000_0000_0000u128;
        proof {
            assert(q <= nn) by (nonlinear_arith)
                requires
                    q == prod / 0x1_0000_0000_0000_0000u128,
                    prod == nn * mu,
                    0 <= mu <= 0xffff_ffff_ffff_ffff,
                    nn >= 0,
            ;
            assert(q * d <= 0xffff_ffff_ffff_ffff * 0xffff_ffff_ffff_ffff) by (nonlinear_arith)
                requires
                    0 <= q <= nn,
                    nn <= 0xffff_ffff_ffff_ffff,
                    1 <= d <= 0xffff_ffff_ffff_ffff,
            ;
        }
        let mut qd = q * d;
        while qd > nn
            invariant
                d == self.divisor,
                1 <= d <= 0xffff_ffff_ffff_ffff,
                nn == n,
                q <= nn,
                qd == q * d,
            decreases q,
        {
            proof {
                if q == 0 {
                    assert(q * d == 0) by (nonlinear_arith)
                        requires
                            q == 0,
                    ;
                }
            }
            q = q - 1;
            proof {
                assert(q * d <= 0xffff_ffff_ffff_ffff * 0xffff_ffff_ffff_ffff) by (nonlinear_arith)
                    requires
                        0 <= q <= nn,
                        nn <= 0xffff_ffff_ffff_ffff,
                        1 <= d <= 0xffff_ffff_ffff_ffff,
                ;
            }
            qd = q * d;
        }
        proof {
            assert((q + 1) * d <= 0x1_0000_0000_0000_0000 * 0xffff_ffff_ffff_ffff) by (nonlinear_arith)
                requires
                    0 <= q <= nn,
                    nn <= 0xffff_ffff_ffff_ffff,
                    1 <= d <= 0xffff_ffff_ffff_ffff,
            ;
        }
        let mut nxt = (q + 1) * d;
        while nxt <= nn
            invariant
                d == self.divisor,
                1 <= d <= 0xffff_ffff_ffff_ffff,
                nn == n,
                nn <= 0xffff_ffff_ffff_ffff,
                q <= nn,
                q * d <= nn,
                nxt == (q + 1) * d,
            decreases nn - q,
        {
            proof {
                assert(q + 1 <= nn) by (nonlinear_arith)
                    requires
                        (q + 1) * d <= nn,
                        d >= 1,
                        q >= 0,
                ;
            }
            q = q + 1;
            proof {
                assert((q + 1) * d <= 0x1_0000_0000_0000_0000 * 0xffff_ffff_ffff_ffff) by (nonlinear_arith)
                    requires
                        0 <= q <= nn,
                        nn <= 0xffff_ffff_ffff_ffff,
                        1 <= d <= 0xffff_ffff_ffff_ffff,
                ;
            }
            nxt = (q + 1) * d;
        }
        proof {
            assert(nn < (q + 1) * d);
            assert((q + 1) * d == q * d + d) by (nonlinear_arith);
            vstd::arithmetic::div_mod::lemma_fundamental_div_mod_converse(
                nn as int,
                d as int,
                q as int,
                nn - q * d,
            );
        }
        q as u64
    }
}

/// The high half of `n * floor((2^64 - 1) / d)` is `n / d` or one below it,
/// for every numerator and divisor below 2^64: the quotient that `div`
/// returns is at most one step away from its estimate.
pub proof fn lemma_reciprocal_estimate(n: int, d: int)
    requires
        0 <= n < reciprocal_scale(),
        1 <= d < reciprocal_scale(),
    ensures
        n / d - 1 <= n * ((reciprocal_scale() - 1) / d) / reciprocal_scale() <= n / d,
{
    let m = reciprocal_scale();
    let mul = (m - 1) / d;
    let q0 = n * mul / m;
    let qq = n / d;
    vstd::arithmetic::div_mod::lemma_fundamental_div_mod(m - 1, d);
    vstd::arithmetic::div_mod::lemma_fundamental_div_mod(n * mul, m);
    vstd::arithmetic::div_mod::lemma_fundamental_div_mod(n, d);
    let r1 = (m - 1) % d;
    let r2 = (n * mul) % m;
    let r3 = n % d;
    assert(mul >= 0 && q0 >= 0) by (nonlinear_arith)
        requires
            m - 1 == d * mul + r1,
            0 <= r1 < d,
            d >= 1,
            m > d,
            n * mul == m * q0 + r2,
            0 <= r2 < m,
            n >= 0,
    ;
    // Upper: q0 * d <= n.
    assert(q0 * m * d <= n * (m - 1)) by (nonlinear_arith)
        requires
            m * q0 <= n * mul,
            d * mul <= m - 1,
            d >= 1,
            n >= 0,
            q0 >= 0,
            mul >= 0,
    ;
    assert(q0 * d <= n) by (nonlinear_arith)
        requires
            q0 * m * d <= n * (m - 1),
            m > 0,
            n >= 0,
    ;
    assert(q0 <= qq) by (nonlinear_arith)
        requires
            q0 * d <= n,
            n == d * qq + r3,
            r3 < d,
            d >= 1,
    ;
    // Lower: (q0 + 2) * d > n.
    assert((q0 + 1) * m * d > n * mul * d) by (nonlinear_arith)
        requires
            n * mul < m * (q0 + 1),
            d >= 1,
    ;
    assert(n * mul * d >= n * (m - d)) by (nonlinear_arith)
        requires
            d * mul >= m - d,
            n >= 0,
    ;
    assert((q0 + 1) * d > n - d) by (nonlinear_arith)
        requires
            (q0 + 1) * m * d > n * (m - d),
            n < m,
            m > 0,
            d >= 1,
    ;
    assert(q0 >= qq - 1) by (nonlinear_arith)
        requires
            (q0 + 1) * d > n - d,
            n == d * qq + r3,
            r3 >= 0,
            d >= 1,
    ;
}

/// `t[i]` divides by `ds[i]` for every `i`, exact up to `max_n`.
pub open spec fn reciprocals_for(t: Seq<FastDiv64>, ds: Seq<u64>, max_n: int) -> bool {
    &&& t.len() == ds.len()
    &&& forall|i: int| 0 <= i < t.len() ==> (#[trigger] t[i]).divisor == ds[i] && t[i].max_n >= max_n
}

/// One prepared divisor per entry of a prime list.
pub struct FastDivTable {
    pub table: Vec<FastDiv64>,
}

impl FastDivTable {
    /// Prepares division by every entry of `primes` for numerators up to `max_n`.
    pub fn build(primes: &[u64], max_n: u64) -> (t: Self)
        ensures
            reciprocals_for(t.table@, primes@, max_n as int),
    {
        let mut table: Vec<FastDiv64> = Vec::new();
        let mut i: usize = 0;
        while i < primes.len()
            invariant
                i <= primes@.len(),
                reciprocals_for(table@, primes@.subrange(0, i as int), max_n as int),
            decreases primes@.len() - i,
        {
            table.push(FastDiv64::new(primes[i], max_n));
            i += 1;
        }
        assert(primes@.subrange(0, primes@.len() as int) == primes@);
        FastDivTable { table }
    }

    /// The prepared divisors, in the order of the primes.
    pub fn as_slice(&self) -> (s: &[FastDiv64])
        ensures
            s@ == self.table@,
    {
        self.table.as_slice()
    }
}

} // verus!
