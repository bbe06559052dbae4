//! The P2 sweep of Lehmer's formula: sum over a < i <= b of pi(x / p_i).
use vstd::prelude::*;
use crate::leaf_sums::range_sum;
use crate::pi_table::PiTable;
use crate::primality::{prime_count, lemma_prime_count_bound};

verus! {

/// sum over a < i <= b of pi(x / primes[i]).
pub open spec fn p2_sum(x: int, a: int, b: int, primes: Seq<u64>) -> int {
    range_sum(a + 1, b + 1, |i: int| prime_count(x / (primes[i] as int)) as int)
}

/// The quotients x / primes[i], a < i <= b, lie within the table.
pub open spec fn p2_domain(x: int, a: int, b: int, primes: Seq<u64>, max_y: int) -> bool {
    &&& b < primes.len()
    &&& forall|i: int| a < i <= b ==> #[trigger] primes[i] > 0 && x / (primes[i] as int) <= max_y
}

/// P2 = sum over a < i <= b of pi(x / p_i).
pub fn compute_p2(x: u64, a: usize, b: usize, primes: &[u64], pi_table: &PiTable) -> (r: u128)
    requires
        pi_table.valid(),
        p2_domain(x as int, a as int, b as int, primes@, pi_table.max_y as int),
    ensures
        r == p2_sum(x as int, a as int, b as int, primes@),
{
    let ghost f = |i: int| prime_count(x as int / (primes@[i] as int)) as int;
    if a >= b {
        return 0;
    }
    let mut sum: u128 = 0;
    let mut i = a + 1;
    assert(0 * 0x1_0000_0000_0000_0000int == 0);
    while i <= b
        invariant
            pi_table.valid(),
            p2_domain(x as int, a as int, b as int, primes@, pi_table.max_y as int),
            f == (|i: int| prime_count(x as int / (primes@[i] as int)) as int),
            a < b < primes@.len(),
            a + 1 <= i <= b + 1,
            sum == range_sum(a + 1, i as int, f),
            sum <= (i - a - 1) * 0x1_0000_0000_0000_0000int,
        decreases b + 1 - i,
    {
        let p = primes[i];
        let v = x / p;
        proof {
            lemma_prime_count_bound(v as int);
            assert((i + 1 - a - 1) * 0x1_0000_0000_0000_0000int == (i - a - 1) * 0x1_0000_0000_0000_0000int
                + 0x1_0000_0000_0000_0000int);
        }
        sum = sum + pi_table.pi(v) as u128;
        i += 1;
    }
    sum
}

} // verus!
