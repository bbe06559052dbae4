//! Segment work queue for the D-sieve: each claim takes the next
//! `batch_size` segments (fewer at the end) of `[0, total_segments)`.
use vstd::prelude::*;

verus! {

/// The three terms one asymmetric run produces.
pub struct ExecutionMetrics {
    pub b_val: i64,
    pub ac_val: i64,
    pub d_val: i64,
}

/// Hands out consecutive segment ranges covering `[0, total_segments)`.
pub struct WorkQueue {
    current_segment: u64,
    total_segments: u64,
}

impl WorkQueue {
    /// The first segment not handed out yet.
    pub closed spec fn cursor(&self) -> int {
        self.current_segment as int
    }

    /// The number of segments to hand out.
    pub closed spec fn total(&self) -> int {
        self.total_segments as int
    }

    /// A queue over the segments [0, total_segments), none handed out.
    pub fn new(total_segments: u64) -> (q: Self)
        ensures
            q.cursor() == 0,
            q.total() == total_segments,
    {
        Self { current_segment: 0, total_segments }
    }

    /// Claims up to `batch_size` segments; `None` once all were handed out.
    pub fn claim(&mut self, batch_size: u64) -> (r: Option<(u64, u64)>)
        requires
            old(self).cursor() < old(self).total() ==> old(self).cursor() + batch_size <= u64::MAX,
        ensures
            final(self).total() == old(self).total(),
            match r {
                None => old(self).cursor() >= old(self).total() && final(self).cursor() == old(self).cursor(),
                Some((start, end)) => {
                    &&& start == old(self).cursor() < old(self).total()
                    &&& end == if start + batch_size < old(self).total() {
                        start + batch_size
                    } else {
                        old(self).total()
                    }
                    &&& final(self).cursor() == end
                },
            },
    {
        let curr = self.current_segment;
        if curr >= self.total_segments {
            return None;
        }
        let end = if curr + batch_size < self.total_segments {
            curr + batch_size
        } else {
            self.total_segments
        };
        self.current_segment = end;
        Some((curr, end))
    }

    /// Segments not yet handed out.
    pub fn remaining(&self) -> (r: u64)
        ensures
            r == if self.cursor() <= self.total() { self.total() - self.cursor() } else { 0 },
    {
        self.total_segments.saturating_sub(self.current_segment)
    }
}

} // verus!
