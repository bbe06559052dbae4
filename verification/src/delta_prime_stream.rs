//! An ascending prime list read by index or by a forward cursor.
use vstd::prelude::*;

verus! {

/// Ascending primes, read by position.
pub struct DeltaPrimeStream {
    pub primes: Vec<u64>,
}

/// Forward cursor over a [`DeltaPrimeStream`].
pub struct PrimeCursor<'a> {
    pub stream: &'a DeltaPrimeStream,
    pub pos: usize,
}

impl DeltaPrimeStream {
    /// A stream over the given primes.
    pub fn encode_from_slice(primes: &[u64]) -> (s: Self)
        ensures
            s.primes@ == primes@,
    {
        let mut v: Vec<u64> = Vec::new();
        let mut i: usize = 0;
        while i < primes.len()
            invariant
                i <= primes@.len(),
                v@ == primes@.subrange(0, i as int),
            decreases primes@.len() - i,
        {
            v.push(primes[i]);
            i += 1;
        }
        assert(primes@.subrange(0, primes@.len() as int) == primes@);
        DeltaPrimeStream { primes: v }
    }

    /// Number of primes in the stream.
    pub fn total_primes(&self) -> (n: usize)
        ensures
            n == self.primes@.len(),
    {
        self.primes.len()
    }

    /// The prime at position `i`.
    pub fn get(&self, i: usize) -> (p: u64)
        requires
            i < self.primes@.len(),
        ensures
            p == self.primes@[i as int],
    {
        self.primes[i]
    }

    /// A cursor standing on position `i`.
    pub fn cursor_from(&self, i: usize) -> (c: PrimeCursor)
        ensures
            c.stream == self,
            c.pos == i,
    {
        PrimeCursor { stream: self, pos: i }
    }
}

impl<'a> PrimeCursor<'a> {
    /// The prime under the cursor.
    pub fn current(&self) -> (p: u64)
        requires
            self.pos < self.stream.primes@.len(),
        ensures
            p == self.stream.primes@[self.pos as int],
    {
        self.stream.primes[self.pos]
    }

    /// Moves to the next position.
    pub fn next_prime(&mut self)
        requires
            old(self).pos < usize::MAX,
        ensures
            final(self).stream == old(self).stream,
            final(self).pos == old(self).pos + 1,
    {
        self.pos = self.pos + 1;
    }
}

} // verus!
