//! Segment queue with tail tapering: below 512 remaining segments every
//! claim shrinks to clamp(remaining / 8, 1, 8).
use vstd::prelude::*;
use crate::intmath::{clamp_spec, clamp_u64};

verus! {

/// Batch actually handed out when `remaining` segments are left.
pub open spec fn tapered_batch(remaining: int, preferred: int) -> int {
    if remaining < 512 {
        clamp_spec(remaining / 8, 1, 8)
    } else {
        preferred
    }
}

/// Hands out consecutive segment ranges covering `[0, total_segments)`.
pub struct SieveQueue {
    pub current_segment: u64,
    pub total_segments: u64,
}

impl SieveQueue {
    /// A queue over the segments [0, total_segments), none handed out.
    pub fn new(total_segments: u64) -> (q: Self)
        ensures
            q.current_segment == 0,
            q.total_segments == total_segments,
    {
        Self { current_segment: 0, total_segments }
    }

    /// Claims the next (possibly tapered) range; `None` once all were handed out.
    pub fn claim(&mut self, preferred_batch: u64) -> (r: Option<(u64, u64)>)
        requires
            old(self).current_segment < old(self).total_segments ==> old(self).current_segment
                + tapered_batch(
                old(self).total_segments - old(self).current_segment,
                preferred_batch as int,
            ) <= u64::MAX,
        ensures
            final(self).total_segments == old(self).total_segments,
            match r {
                None => old(self).current_segment >= old(self).total_segments && final(self).current_segment == old(self).current_segment,
                Some((start, end)) => {
                    let e = start + tapered_batch(
                        old(self).total_segments - start,
                        preferred_batch as int,
                    );
                    &&& start == old(self).current_segment < old(self).total_segments
                    &&& end == if e < old(self).total_segments {
                        e
                    } else {
                        old(self).total_segments as int
                    }
                    &&& final(self).current_segment == end
                },
            },
    {
        let curr = self.current_segment;
        if curr >= self.total_segments {
            return None;
        }
        let remaining = self.total_segments - curr;
        let actual_batch = if remaining < 512 {
            clamp_u64(remaining / 8, 1, 8)
        } else {
            preferred_batch
        };
        let end = if curr + actual_batch < self.total_segments {
            curr + actual_batch
        } else {
            self.total_segments
        };
        self.current_segment = end;
        Some((curr, end))
    }
}

} // verus!
