//! Prime-index lookups into an ascending prime slice: pi(v) restricted to
//! the slice, answered by binary search.
use vstd::prelude::*;
use crate::primality::{count_le, is_partition_point, sorted, strip_sentinel, lemma_count_le_partition};
use vstd::slice::slice_subrange;

verus! {

/// Number of entries `<= v` of the ascending slice `s` (Rust's
/// `partition_point(|&p| p <= v)`).
pub fn partition_point_le(s: &[u64], v: u64) -> (r: usize)
    requires
        sorted(s@),
    ensures
        is_partition_point(s@, v as int, r as int),
        r == count_le(s@, v as int),
{
    let mut lo: usize = 0;
    let mut hi: usize = s.len();
    while lo < hi
        invariant
            sorted(s@),
            0 <= lo <= hi <= s@.len(),
            forall|i: int| 0 <= i < lo ==> #[trigger] s@[i] as int <= v,
            forall|i: int| hi <= i < s@.len() ==> #[trigger] s@[i] as int > v,
        decreases hi - lo,
    {
        let mid = lo + (hi - lo) / 2;
        if s[mid] <= v {
            assert forall|i: int| 0 <= i <= mid implies #[trigger] s@[i] as int <= v by {
                assert(s@[i] <= s@[mid as int]);
            }
            lo = mid + 1;
        } else {
            assert forall|i: int| mid <= i < s@.len() implies #[trigger] s@[i] as int > v by {
                assert(s@[mid as int] <= s@[i]);
            }
            hi = mid;
        }
    }
    proof {
        lemma_count_le_partition(s@, v as int, lo as int);
    }
    lo
}

/// The primes proper of a list that may start with a 0 sentinel.
pub fn strip_sentinel_slice(primes: &[u64]) -> (s: &[u64])
    ensures
        s@ == strip_sentinel(primes@),
{
    if primes.len() >= 1 && primes[0] == 0 {
        slice_subrange(primes, 1, primes.len())
    } else {
        primes
    }
}

/// Stripping a leading 0 keeps a list ascending.
pub proof fn lemma_strip_sorted(primes: Seq<u64>)
    requires
        sorted(primes),
    ensures
        sorted(strip_sentinel(primes)),
{
    let s = strip_sentinel(primes);
    assert forall|i: int, j: int| 0 <= i <= j < s.len() implies #[trigger] s[i] <= #[trigger] s[j] by {
        if primes.len() >= 1 && primes[0] == 0 {
            assert(s[i] == primes[i + 1] && s[j] == primes[j + 1]);
        }
    }
}

/// With a leading 0 in front, the count of entries `<= v` grows by one.
pub proof fn lemma_sentinel_count(primes: Seq<u64>, v: int, r: int)
    requires
        sorted(primes),
        v >= 0,
        is_partition_point(strip_sentinel(primes), v, r),
    ensures
        count_le(primes, v) == if primes.len() >= 1 && primes[0] == 0 { r + 1 } else { r },
{
    let s = strip_sentinel(primes);
    if primes.len() >= 1 && primes[0] == 0 {
        assert forall|i: int| 0 <= i < r + 1 implies #[trigger] primes[i] as int <= v by {
            if i >= 1 {
                assert(primes[i] == s[i - 1]);
            }
        }
        assert forall|i: int| r + 1 <= i < primes.len() implies #[trigger] primes[i] as int > v by {
            assert(primes[i] == s[i - 1]);
        }
        lemma_count_le_partition(primes, v, r + 1);
    } else {
        lemma_count_le_partition(primes, v, r);
    }
}

/// Index over an ascending prime slice answering "how many primes of the
/// slice are `<= v`".
pub struct SampledPrimeIndex {
    /// Length of the slice the index was built over.
    pub len: usize,
}

impl SampledPrimeIndex {
    /// An index over `prime_slice`.
    pub fn build(prime_slice: &[u64]) -> (idx: Self)
        ensures
            idx.len == prime_slice@.len(),
    {
        SampledPrimeIndex { len: prime_slice.len() }
    }

    /// Number of primes of `prime_slice` that are `<= v`.
    pub fn pi(&self, prime_slice: &[u64], v: u64) -> (r: u64)
        requires
            sorted(prime_slice@),
        ensures
            r == count_le(prime_slice@, v as int),
    {
        partition_point_le(prime_slice, v) as u64
    }
}

} // verus!
