//! Segment queue of the dual-big-core handoff: fixed batches, clipped at the end.
use vstd::prelude::*;

verus! {

/// Hands out consecutive segment ranges covering `[0, total_segments)`.
pub struct SieveQueue {
    pub current_segment: u64,
    pub total_segments: u64,
}

impl SieveQueue {
    /// A queue over the segments [0, total_segments), none handed out.
    pub fn new(total_segments: u64) -> (q: Self)
        ensures
            q.current_segment == 0,
            q.total_segments == total_segments,
    {
        Self { current_segment: 0, total_segments }
    }

    /// Claims up to `batch_size` segments; `None` once all were handed out.
    pub fn claim(&mut self, batch_size: u64) -> (r: Option<(u64, u64)>)
        requires
            old(self).current_segment < old(self).total_segments ==> old(self).current_segment
                + batch_size <= u64::MAX,
        ensures
            final(self).total_segments == old(self).total_segments,
            match r {
                None => old(self).current_segment >= old(self).total_segments && final(self).current_segment == old(self).current_segment,
                Some((start, end)) => {
                    &&& start == old(self).current_segment < old(self).total_segments
                    &&& end == if start + batch_size < old(self).total_segments {
                        start + batch_size
                    } else {
                        old(self).total_segments as int
                    }
                    &&& final(self).current_segment == end
                },
            },
    {
        let curr = self.current_segment;
        if curr >= self.total_segments {
            return None;
        }
        let end = if curr + batch_size < self.total_segments {
            curr + batch_size
        } else {
            self.total_segments
        };
        self.current_segment = end;
        Some((curr, end))
    }
}

} // verus!
