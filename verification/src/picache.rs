//! Dense count of the primes of a given ascending list over [0, limit].
use vstd::prelude::*;
use crate::primality::{count_le, is_partition_point, sorted, lemma_count_le_partition};

verus! {

/// `counts[v]` is the number of entries `<= v` of the list it was built from.
pub struct PiCache {
    pub limit: u64,
    pub counts: Vec<u64>,
    /// The ascending list the counts were taken from.
    pub source: Ghost<Seq<u64>>,
}

impl PiCache {
    /// The cache holds the count of listed primes up to every v <= limit.
    pub open spec fn valid(&self) -> bool {
        &&& self.counts@.len() == self.limit + 1
        &&& forall|v: int| 0 <= v <= self.limit ==> #[trigger] self.counts@[v] == count_le(self.source@, v)
    }

    /// Counts the entries of `primes` up to every `v <= limit`.
    pub fn build(limit: u64, primes: &[u64]) -> (c: Self)
        requires
            sorted(primes@),
            limit < usize::MAX / 2,
        ensures
            c.valid(),
            c.limit == limit,
            c.source@ == primes@,
    {
        let mut counts: Vec<u64> = Vec::new();
        let mut j: usize = 0;
        let mut v: u64 = 0;
        while v <= limit
            invariant
                sorted(primes@),
                limit < usize::MAX / 2,
                v <= limit + 1,
                counts@.len() == v,
                j <= primes@.len(),
                forall|i: int| 0 <= i < j ==> (#[trigger] primes@[i]) < v,
                v <= limit ==> forall|i: int| j <= i < primes@.len() ==> (#[trigger] primes@[i]) >= v,
                forall|w: int| 0 <= w < v ==> #[trigger] counts@[w] == count_le(primes@, w),
            decreases limit + 1 - v,
        {
            while j < primes.len() && primes[j] <= v
                invariant
                    sorted(primes@),
                    j <= primes@.len(),
                    forall|i: int| 0 <= i < j ==> (#[trigger] primes@[i]) <= v,
                    forall|i: int| j <= i < primes@.len() ==> (#[trigger] primes@[i]) >= v,
                decreases primes@.len() - j,
            {
                j += 1;
            }
            assert forall|i: int| j <= i < primes@.len() implies (#[trigger] primes@[i]) > v by {
                assert(primes@[j as int] <= primes@[i]);
            }
            assert(is_partition_point(primes@, v as int, j as int));
            proof {
                lemma_count_le_partition(primes@, v as int, j as int);
            }
            counts.push(j as u64);
            v += 1;
        }
        PiCache { limit, counts, source: Ghost(primes@) }
    }

    /// Number of entries `<= v` of the source list.
    pub fn pi(&self, v: u64) -> (r: u64)
        requires
            self.valid(),
            v <= self.limit,
        ensures
            r == count_le(self.source@, v as int),
    {
        let len = self.counts.len();
        assert(v < len);
        self.counts[v as usize]
    }
}

} // verus!
