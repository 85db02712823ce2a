//! A text widget that repeats its content without end.
use vstd::prelude::*;
use crate::outside::display_width;
use crate::text::offsets::str_slice;
use crate::text::painter::StyleValue;
use crate::text::sliceable::{Bound, Bounds};
use crate::text::spans::{spans_push, spans_push_span, Span, Spans};
use crate::text::width::{BoundedWidth, HasWidth, Width};
use crate::text::width_sliceable::{width_byte_range, WidthSliceable};

verus! {

/// Zero for a negative number, else the number.
pub open spec fn at_least_zero(x: int) -> int {
    if x < 0 {
        0
    } else {
        x
    }
}

/// How many columns a width range spans; none where it has no end.
pub open spec fn range_columns(range: Bounds) -> Option<int> {
    match (range.start, range.end) {
        (_, Bound::Unbounded) => None,
        (Bound::Unbounded, Bound::Excluded(e)) => Some(e as int),
        (Bound::Unbounded, Bound::Included(e)) => Some(e + 1),
        (Bound::Included(s), Bound::Excluded(e)) => Some(at_least_zero(e - s)),
        (Bound::Included(s), Bound::Included(e)) => Some(at_least_zero(e + 1 - s)),
        (Bound::Excluded(s), Bound::Excluded(e)) => Some(at_least_zero(e - (s + 1))),
        (Bound::Excluded(s), Bound::Included(e)) => Some(at_least_zero(e + 1 - (s + 1))),
    }
}

/// The range moved `shift` columns to the left, with no end going below
/// zero; an included end that would becomes an excluded zero.
pub open spec fn shifted_left(range: Bounds, shift: int) -> Bounds {
    Bounds {
        start: match range.start {
            Bound::Excluded(s) => Bound::Excluded(at_least_zero(s - shift) as usize),
            Bound::Included(s) => Bound::Included(at_least_zero(s - shift) as usize),
            Bound::Unbounded => Bound::Unbounded,
        },
        end: match range.end {
            Bound::Excluded(e) => Bound::Excluded(at_least_zero(e - shift) as usize),
            Bound::Included(e) => if e - shift < 0 {
                Bound::Excluded(0)
            } else {
                Bound::Included((e - shift) as usize)
            },
            Bound::Unbounded => Bound::Unbounded,
        },
    }
}

/// What slicing a span by width gives (the span's style and the part of
/// its text in the range).
pub open spec fn span_width_slice<T>(s: (T, Seq<char>), range: Bounds) -> Option<(T, Seq<char>)> {
    match width_byte_range(s.1, range) {
        Some(b) => match str_slice(s.1, b) {
            Some(t) => Some((s.0, t)),
            None => None,
        },
        None => None,
    }
}

/// The range with an excluded start written as the included column after
/// it, so that moving it left keeps its meaning in every copy.
pub open spec fn normalized(range: Bounds) -> Bounds {
    Bounds {
        start: match range.start {
            Bound::Excluded(s) => Bound::Included((s + 1) as usize),
            other => other,
        },
        end: range.end,
    }
}

/// The column just past a bounded range's end (zero where it has none).
pub open spec fn end_column(range: Bounds) -> int {
    match range.end {
        Bound::Excluded(e) => e as int,
        Bound::Included(e) => e + 1,
        Bound::Unbounded => 0,
    }
}

/// How many copies of a `w` columns wide content start before column `c`.
pub open spec fn repeat_copies(c: int, w: nat) -> nat
    decreases c,
{
    if c <= 0 || w == 0 {
        0
    } else if c <= w {
        1
    } else {
        1 + repeat_copies(c - w, w)
    }
}

/// The first `n` copies of the content, each `w` columns wide, each sliced
/// by the range moved back by the copies before it, the slices that are not
/// empty joined in order.
pub open spec fn repeat_fold<T: StyleValue>(content: (T, Seq<char>), range: Bounds, w: nat, n: nat) -> (
    Seq<char>,
    Seq<(usize, T)>,
)
    decreases n,
{
    if n == 0 {
        (Seq::empty(), Seq::empty())
    } else {
        let res = repeat_fold(content, range, w, (n - 1) as nat);
        match span_width_slice(content, shifted_left(range, (n - 1) * w)) {
            Some(s) => spans_push_span(spans_push((Seq::empty(), Seq::empty()), res), s),
            None => res,
        }
    }
}

/// Columns `s..e` of the endless repetition: every copy that starts before
/// the range's end, sliced by the range moved back to it.
pub open spec fn repeated_columns<T: StyleValue>(content: (T, Seq<char>), range: Bounds, w: nat) -> (
    Seq<char>,
    Seq<(usize, T)>,
) {
    repeat_fold(content, normalized(range), w, repeat_copies(end_column(range), w))
}

/// A text widget that repeats its content arbitrarily many times.
#[derive(Debug)]
pub struct Repeat<T> {
    content: Span<T>,
}

impl<T> View for Repeat<T> {
    type V = (T, Seq<char>);

    /// The repeated span.
    closed spec fn view(&self) -> (T, Seq<char>) {
        self.content@
    }
}

impl<T> Repeat<T> {
    /// A widget repeating the span.
    pub fn new(content: Span<T>) -> (r: Repeat<T>)
        ensures
            r@ == content@,
    {
        Repeat { content }
    }
}

impl<T> HasWidth for Repeat<T> {
    open spec fn spec_width(&self) -> Width {
        Width::Unbounded
    }

    /// A repeated text has no end.
    fn width(&self) -> (r: Width) {
        Width::Unbounded
    }
}

/// The range moved `shift` columns to the left (see `shifted_left`).
fn shift_range(range: Bounds, shift: u128) -> (r: Bounds)
    ensures
        r == shifted_left(range, shift as int),
{
    let start = match range.start {
        Bound::Excluded(s) => Bound::Excluded(
            if (s as u128) < shift {
                0
            } else {
                ((s as u128) - shift) as usize
            },
        ),
        Bound::Included(s) => Bound::Included(
            if (s as u128) < shift {
                0
            } else {
                ((s as u128) - shift) as usize
            },
        ),
        Bound::Unbounded => Bound::Unbounded,
    };
    let end = match range.end {
        Bound::Excluded(e) => Bound::Excluded(
            if (e as u128) < shift {
                0
            } else {
                ((e as u128) - shift) as usize
            },
        ),
        Bound::Included(e) => {
            if (e as u128) < shift {
                Bound::Excluded(0)
            } else {
                Bound::Included(((e as u128) - shift) as usize)
            }
        },
        Bound::Unbounded => Bound::Unbounded,
    };
    Bounds { start, end }
}

impl<T: StyleValue> WidthSliceable for Repeat<T> {
    type Output = Spans<T>;

    /// A range's included end or excluded start must have a successor.
    open spec fn can_slice_width(&self, range: Bounds) -> bool {
        range.start != Bound::Excluded(usize::MAX) && range.end != Bound::Included(usize::MAX)
    }

    /// Slices the endless repetition by columns: none where the range has no
    /// end or spans no column, or the content has no width; else the slices
    /// of every copy that starts before the range's end, joined.
    fn slice_width(&self, range: Bounds) -> (r: Option<Spans<T>>)
        ensures
            match range_columns(range) {
                None => r is None,
                Some(c) => if c == 0 || display_width(self@.1) == 0 {
                    r is None
                } else {
                    r matches Some(x) && x@ == repeated_columns(self@, range, display_width(self@.1))
                        && x.wf()
                },
            },
    {
        let columns: usize = match (range.start, range.end) {
            (_, Bound::Unbounded) => {
                return None;
            },
            (Bound::Unbounded, Bound::Excluded(e)) => e,
            (Bound::Unbounded, Bound::Included(e)) => e + 1,
            (Bound::Included(s), Bound::Excluded(e)) => e.saturating_sub(s),
            (Bound::Included(s), Bound::Included(e)) => (e + 1).saturating_sub(s),
            (Bound::Excluded(s), Bound::Excluded(e)) => e.saturating_sub(s + 1),
            (Bound::Excluded(s), Bound::Included(e)) => (e + 1).saturating_sub(s + 1),
        };
        if columns == 0 {
            return None;
        }
        let self_width = self.content.bounded_width();
        if self_width == 0 {
            return None;
        }
        let ghost w = display_width(self@.1);
        let end_col: u128 = match range.end {
            Bound::Excluded(e) => e as u128,
            Bound::Included(e) => (e as u128) + 1,
            Bound::Unbounded => 0,
        };
        let start = match range.start {
            Bound::Excluded(s) => Bound::Included(s + 1),
            other => other,
        };
        let norm = Bounds { start, end: range.end };
        assert(norm == normalized(range));
        let mut res: Spans<T> = Spans::default();
        let mut segment: usize = 0;
        let mut offset: u128 = 0;
        while offset < end_col
            invariant
                self_width == w,
                w == display_width(self@.1),
                w > 0,
                norm == normalized(range),
                end_col == end_column(range),
                end_col <= usize::MAX,
                offset == segment * w,
                offset < end_col + w,
                segment + repeat_copies(end_col - offset, w) == repeat_copies(end_col as int, w),
                res.wf(),
                res@ == repeat_fold(self@, norm, w, segment as nat),
            decreases end_col + w - offset,
        {
            let shifted = shift_range(norm, offset);
            match self.content.slice_width(shifted) {
                Some(sliced) => {
                    res = res.join_span(&sliced);
                },
                None => {},
            }
            assert(res@ == repeat_fold(self@, norm, w, (segment + 1) as nat));
            assert((segment + 1) * w == segment * w + w) by (nonlinear_arith);
            proof {
                assert(repeat_copies(end_col - offset, w) == 1 + repeat_copies(end_col - (offset + w), w));
            }
            assert(segment < usize::MAX) by (nonlinear_arith)
                requires
                    offset == segment * w,
                    offset < end_col,
                    end_col <= usize::MAX,
                    w > 0,
            ;
            segment = segment + 1;
            offset = offset + self_width as u128;
        }
        Some(res)
    }
}

} // verus!
