//! Ranges of indices, and slicing text objects by bytes.
use vstd::prelude::*;
use crate::text::offsets::{slice_str, slicing_range, str_slice};

verus! {

/// One end of a range of indices.
#[derive(Copy, Clone, Debug, PartialEq, Eq, Structural)]
pub enum Bound {
    /// The end includes this index.
    Included(usize),
    /// The end excludes this index.
    Excluded(usize),
    /// The range is open at this end.
    Unbounded,
}

/// A range of indices (bytes or columns), given by its two ends.
#[derive(Copy, Clone, Debug, PartialEq, Eq, Structural)]
pub struct Bounds {
    /// Where the range starts.
    pub start: Bound,
    /// Where the range ends.
    pub end: Bound,
}

impl Bounds {
    /// Whether the index lies in the range.
    pub open spec fn has(self, x: int) -> bool {
        &&& match self.start {
            Bound::Included(s) => s <= x,
            Bound::Excluded(s) => s < x,
            Bound::Unbounded => true,
        }
        &&& match self.end {
            Bound::Included(e) => x <= e,
            Bound::Excluded(e) => x < e,
            Bound::Unbounded => true,
        }
    }

    /// A range from its two ends.
    pub fn new(start: Bound, end: Bound) -> (r: Bounds)
        ensures
            r == (Bounds { start, end }),
    {
        Bounds { start, end }
    }

    /// The range that holds every index (`..`).
    pub fn full() -> (r: Bounds)
        ensures
            r == (Bounds { start: Bound::Unbounded, end: Bound::Unbounded }),
    {
        Bounds { start: Bound::Unbounded, end: Bound::Unbounded }
    }

    /// The indices below `end` (`..end`).
    pub fn up_to(end: usize) -> (r: Bounds)
        ensures
            r == (Bounds { start: Bound::Unbounded, end: Bound::Excluded(end) }),
    {
        Bounds { start: Bound::Unbounded, end: Bound::Excluded(end) }
    }

    /// The indices up to and including `end` (`..=end`).
    pub fn up_to_inclusive(end: usize) -> (r: Bounds)
        ensures
            r == (Bounds { start: Bound::Unbounded, end: Bound::Included(end) }),
    {
        Bounds { start: Bound::Unbounded, end: Bound::Included(end) }
    }

    /// The indices from `start` on (`start..`).
    pub fn starting_at(start: usize) -> (r: Bounds)
        ensures
            r == (Bounds { start: Bound::Included(start), end: Bound::Unbounded }),
    {
        Bounds { start: Bound::Included(start), end: Bound::Unbounded }
    }

    /// The indices from `start` up to but not including `end` (`start..end`).
    pub fn between(start: usize, end: usize) -> (r: Bounds)
        ensures
            r == (Bounds { start: Bound::Included(start), end: Bound::Excluded(end) }),
    {
        Bounds { start: Bound::Included(start), end: Bound::Excluded(end) }
    }

    /// The indices from `start` up to and including `end` (`start..=end`).
    pub fn between_inclusive(start: usize, end: usize) -> (r: Bounds)
        ensures
            r == (Bounds { start: Bound::Included(start), end: Bound::Included(end) }),
    {
        Bounds { start: Bound::Included(start), end: Bound::Included(end) }
    }

    /// Whether the index lies in the range.
    pub fn contains(&self, x: usize) -> (r: bool)
        ensures
            r == self.has(x as int),
    {
        let above = match self.start {
            Bound::Included(s) => s <= x,
            Bound::Excluded(s) => s < x,
            Bound::Unbounded => true,
        };
        let below = match self.end {
            Bound::Included(e) => x <= e,
            Bound::Excluded(e) => x < e,
            Bound::Unbounded => true,
        };
        above && below
    }
}

/// Text objects that can be sliced by byte offsets (like `str::get`).
pub trait Sliceable: Sized {
    /// Whether the object can be sliced on the range: any object can, on a
    /// range whose start is not the excluded maximum index, unless an
    /// implementation asks for its own well-formedness too.
    open spec fn can_slice(&self, range: Bounds) -> bool {
        slicing_range(range)
    }

    /// Slices the text object by bytes.
    fn slice(&self, range: Bounds) -> Option<Self>
        requires
            self.can_slice(range),
    ;
}

impl Sliceable for String {
    fn slice(&self, range: Bounds) -> (r: Option<String>)
        ensures
            match str_slice(self@, range) {
                Some(t) => r matches Some(x) && x@ == t,
                None => r is None,
            },
    {
        match slice_str(self.as_str(), range) {
            Some(s) => Some(s.to_owned()),
            None => None,
        }
    }
}

impl<'a> Sliceable for &'a str {
    fn slice(&self, range: Bounds) -> (r: Option<&'a str>)
        ensures
            match str_slice((*self)@, range) {
                Some(t) => r matches Some(x) && x@ == t,
                None => r is None,
            },
    {
        slice_str(*self, range)
    }
}

} // verus!
