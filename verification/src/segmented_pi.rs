//! Prime-count tables over a window `[low, high]`, filled from an ascending
//! list of primes: one with a full count per entry, one compact (a base
//! count plus a 32-bit offset per entry).
use vstd::prelude::*;
use crate::primality::{count_le, sorted, is_partition_point, lemma_count_le_partition, lemma_count_le_bound};
use crate::sampled_index::partition_point_le;
use crate::intmath::min_spec;

verus! {

/// Walks `i` forward past the entries `<= v`, from a partition point of
/// some `u <= v`.
fn advance_past(primes: &[u64], i: usize, v: u64) -> (j: usize)
    requires
        sorted(primes@),
        i <= primes@.len(),
        forall|k: int| 0 <= k < i ==> #[trigger] primes@[k] <= v,
    ensures
        is_partition_point(primes@, v as int, j as int),
        i <= j,
{
    let mut j = i;
    while j < primes.len() && primes[j] <= v
        invariant
            sorted(primes@),
            i <= j <= primes@.len(),
            forall|k: int| 0 <= k < j ==> #[trigger] primes@[k] <= v,
        decreases primes@.len() - j,
    {
        j += 1;
    }
    proof {
        assert forall|k: int| j <= k < primes@.len() implies #[trigger] primes@[k] as int > v by {
            assert(primes@[j as int] <= primes@[k]);
        }
    }
    j
}

/// `counts[k]` is the number of listed primes `<= low + k`.
pub struct SegmentedPiTable {
    pub low: u64,
    pub high: u64,
    pub counts: Vec<u64>,
    /// The list the table was filled from.
    pub source: Ghost<Seq<u64>>,
}

impl SegmentedPiTable {
    /// The table holds the count of listed primes up to every point of [low, high].
    pub open spec fn valid(&self) -> bool {
        &&& self.low <= self.high
        &&& self.counts@.len() == self.high - self.low + 1
        &&& forall|k: int|
            0 <= k < self.counts@.len() ==> #[trigger] self.counts@[k] == count_le(
                self.source@,
                self.low + k,
            )
    }

    /// Counts the entries of `primes` up to each point of `[low, high]`.
    pub fn new(low: u64, high: u64, primes: &[u64]) -> (t: Self)
        requires
            low <= high,
            high - low < usize::MAX,
            sorted(primes@),
        ensures
            t.valid(),
            t.low == low,
            t.high == high,
            t.source@ == primes@,
    {
        let n = (high - low) as usize + 1;
        let mut counts: Vec<u64> = Vec::new();
        let mut i = partition_point_le(primes, low);
        let mut k: usize = 0;
        while k < n
            invariant
                sorted(primes@),
                low <= high,
                n == high - low + 1,
                k <= n,
                counts@.len() == k,
                i <= primes@.len(),
                k < n ==> forall|j: int| 0 <= j < i ==> #[trigger] primes@[j] <= low + k,
                forall|j: int| 0 <= j < k ==> #[trigger] counts@[j] == count_le(primes@, low + j),
            decreases n - k,
        {
            let v = low + k as u64;
            i = advance_past(primes, i, v);
            proof {
                lemma_count_le_partition(primes@, v as int, i as int);
            }
            counts.push(i as u64);
            k += 1;
        }
        SegmentedPiTable { low, high, counts, source: Ghost(primes@) }
    }

    /// Number of listed primes `<= min(v, high)`, for `v >= low`: above
    /// the window the count at `high`.
    pub fn pi(&self, v: u64) -> (r: u64)
        requires
            self.valid(),
            self.low <= v,
        ensures
            r == count_le(self.source@, min_spec(v as int, self.high as int)),
    {
        let w = if v > self.high {
            self.high
        } else {
            v
        };
        let k = (w - self.low) as usize;
        let n = self.counts.len();
        assert(k < n);
        self.counts[k]
    }
}

/// `base` is the number of listed primes `<= low`; `deltas[k]` adds the
/// listed primes in `(low, low + k]`.
pub struct CompactPiTable {
    pub low: u64,
    pub high: u64,
    pub base: u64,
    pub deltas: Vec<u32>,
    /// The list the table was filled from.
    pub source: Ghost<Seq<u64>>,
}

impl CompactPiTable {
    /// Base plus offset is the count of listed primes up to every point of [low, high].
    pub open spec fn valid(&self) -> bool {
        &&& self.low <= self.high
        &&& self.deltas@.len() == self.high - self.low + 1
        &&& self.source@.len() <= u32::MAX
        &&& self.base == count_le(self.source@, self.low as int)
        &&& forall|k: int|
            0 <= k < self.deltas@.len() ==> self.base + #[trigger] self.deltas@[k] == count_le(
                self.source@,
                self.low + k,
            )
    }

    /// Counts the entries of `primes` up to each point of `[low, high]`,
    /// stored as 32-bit offsets from the count at `low`.
    pub fn new(low: u64, high: u64, primes: &[u64]) -> (t: Self)
        requires
            low <= high,
            high - low < usize::MAX,
            sorted(primes@),
            primes@.len() <= u32::MAX,
        ensures
            t.valid(),
            t.low == low,
            t.high == high,
            t.source@ == primes@,
    {
        let n = (high - low) as usize + 1;
        let mut deltas: Vec<u32> = Vec::new();
        let i0 = partition_point_le(primes, low);
        let mut i = i0;
        let mut k: usize = 0;
        while k < n
            invariant
                sorted(primes@),
                primes@.len() <= u32::MAX,
                low <= high,
                n == high - low + 1,
                k <= n,
                deltas@.len() == k,
                i0 == count_le(primes@, low as int),
                i0 <= i <= primes@.len(),
                k < n ==> forall|j: int| 0 <= j < i ==> #[trigger] primes@[j] <= low + k,
                forall|j: int| 0 <= j < k ==> i0 + #[trigger] deltas@[j] == count_le(primes@, low + j),
            decreases n - k,
        {
            let v = low + k as u64;
            i = advance_past(primes, i, v);
            proof {
                lemma_count_le_partition(primes@, v as int, i as int);
            }
            deltas.push((i - i0) as u32);
            k += 1;
        }
        CompactPiTable { low, high, base: i0 as u64, deltas, source: Ghost(primes@) }
    }

    /// Number of listed primes `<= min(v, high)`, for `v >= low`: above
    /// the window the count at `high`.
    pub fn pi(&self, v: u64) -> (r: u64)
        requires
            self.valid(),
            self.low <= v,
        ensures
            r == count_le(self.source@, min_spec(v as int, self.high as int)),
    {
        let w = if v > self.high {
            self.high
        } else {
            v
        };
        let k = (w - self.low) as usize;
        let n = self.deltas.len();
        assert(k < n);
        proof {
            lemma_count_le_bound(self.source@, w as int);
        }
        self.base + self.deltas[k] as u64
    }
}

} // verus!
