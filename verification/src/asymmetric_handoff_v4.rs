//! Core-weighted segment queue: big cores take 64-segment batches and little
//! cores 16, both tapering near the end so no straggler holds the join.
use vstd::prelude::*;
use crate::intmath::{clamp_spec, clamp_u64, min_spec, min_u64};

verus! {

/// Architecture class of the core that claims work.
#[derive(Clone, Copy, PartialEq, Eq, Debug)]
pub enum CoreClass {
    Big,
    Little,
}

/// Batch a core of class `class` takes when `remaining` segments are left.
pub open spec fn weighted_batch(class: CoreClass, remaining: int) -> int {
    match class {
        CoreClass::Big => if remaining > 512 {
            64
        } else if remaining > 64 {
            clamp_spec(remaining / 4, 8, 32)
        } else if remaining > 8 {
            clamp_spec(remaining / 2, 2, 8)
        } else {
            min_spec(remaining, 2)
        },
        CoreClass::Little => if remaining > 512 {
            16
        } else if remaining > 64 {
            clamp_spec(remaining / 16, 2, 8)
        } else if remaining > 16 {
            clamp_spec(remaining / 8, 1, 2)
        } else {
            1
        },
    }
}

/// Hands out consecutive segment ranges covering `[0, total_segments)`.
pub struct AsymmetricSieveQueue {
    pub current_segment: u64,
    pub total_segments: u64,
}

impl AsymmetricSieveQueue {
    /// A queue over the segments [0, total_segments), none handed out.
    pub fn new(total_segments: u64) -> (q: Self)
        ensures
            q.current_segment == 0,
            q.total_segments == total_segments,
    {
        Self { current_segment: 0, total_segments }
    }

    /// Claims the next range sized for `core_class`; `None` once all were handed out.
    pub fn claim(&mut self, core_class: CoreClass) -> (r: Option<(u64, u64)>)
        ensures
            final(self).total_segments == old(self).total_segments,
            match r {
                None => old(self).current_segment >= old(self).total_segments && final(self).current_segment == old(self).current_segment,
                Some((start, end)) => {
                    let e = start + weighted_batch(core_class, old(self).total_segments - start);
                    &&& start == old(self).current_segment < old(self).total_segments
                    &&& end == if e < old(self).total_segments {
                        e
                    } else {
                        old(self).total_segments as int
                    }
                    &&& start < end
                    &&& final(self).current_segment == end
                },
            },
    {
        let curr = self.current_segment;
        if curr >= self.total_segments {
            return None;
        }
        let remaining = self.total_segments - curr;
        let batch_size = match core_class {
            CoreClass::Big => {
                if remaining > 512 {
                    64
                } else if remaining > 64 {
                    clamp_u64(remaining / 4, 8, 32)
                } else if remaining > 8 {
                    clamp_u64(remaining / 2, 2, 8)
                } else {
                    min_u64(remaining, 2)
                }
            },
            CoreClass::Little => {
                if remaining > 512 {
                    16
                } else if remaining > 64 {
                    clamp_u64(remaining / 16, 2, 8)
                } else if remaining > 16 {
                    clamp_u64(remaining / 8, 1, 2)
                } else {
                    1
                }
            },
        };
        let end = if batch_size < remaining {
            curr + batch_size
        } else {
            self.total_segments
        };
        self.current_segment = end;
        Some((curr, end))
    }

    /// Segments not yet handed out.
    pub fn remaining(&self) -> (r: u64)
        ensures
            r == if self.current_segment <= self.total_segments {
                self.total_segments - self.current_segment
            } else {
                0
            },
    {
        self.total_segments.saturating_sub(self.current_segment)
    }
}

} // verus!
