//! B(x, y) through the streamed-reciprocal engine of `b_term`.
use vstd::prelude::*;
use crate::leaf_sums::table_or_slice_pi;
use crate::pi_table::PiTable;
use crate::primality::{sorted, strip_sentinel};
use crate::b_term::{b_leaf_sum, b_sum_fits};

verus! {

/// B(x, y) = sum over primes y < p <= sqrt(x) of pi(x / p) - pi(p) + 1,
/// with or without a leading 0 in `primes`, as in
/// [`crate::b_term::compute_b_monotone`].
pub fn compute_b_monotone(x: u64, y: u64, primes: &[u64], pi_table: &PiTable) -> (r: i64)
    requires
        pi_table.valid(),
        sorted(primes@),
        primes@.len() <= 0x1000_0000_0000_0000,
        b_sum_fits(
            x as int,
            y as int,
            strip_sentinel(primes@),
            table_or_slice_pi(pi_table.max_y as int, strip_sentinel(primes@)),
        ),
    ensures
        r == b_leaf_sum(
            x as int,
            y as int,
            strip_sentinel(primes@),
            table_or_slice_pi(pi_table.max_y as int, strip_sentinel(primes@)),
        ),
{
    crate::b_term::compute_b_monotone(x, y, primes, pi_table)
}

} // verus!
