use vstd::prelude::*;

verus! {

/// A half-open range `[start, end)` of node indices.
#[derive(Clone, Copy, Debug)]
pub struct Range {
    pub start: u32,
    pub end: u32,
}

impl Range {
    /// Builds a range from two `usize` bounds, both of which must fit in `u32`.
    pub fn from_usize(start: usize, end: usize) -> (r: Range)
        requires
            start <= u32::MAX,
            end <= u32::MAX,
        ensures
            r.start == start,
            r.end == end,
    {
        Range { start: start as u32, end: end as u32 }
    }

    /// The empty range at zero.
    pub fn empty() -> (r: Range)
        ensures
            r.start == 0,
            r.end == 0,
    {
        Range { start: 0, end: 0 }
    }

    /// The number of indices in the range.
    pub fn len(&self) -> (r: u32)
        requires
            self.start <= self.end,
        ensures
            r == self.end - self.start,
    {
        self.end - self.start
    }
}

} // verus!
