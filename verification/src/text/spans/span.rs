//! A span of text having a single style.
use vstd::prelude::*;
use crate::outside::{display_width, expand_capture, regex_expansion, text_width};
use crate::text::offsets::{slice_str, str_slice};
use crate::text::painter::{Painter, StyleValue};
use crate::text::raw_text::RawText;
use crate::text::pushable::Pushable;
use crate::text::expandable::Expandable;
use crate::text::sliceable::{Bounds, Sliceable};
use crate::text::width::{BoundedWidth, HasWidth, Width};
use crate::text::width_sliceable::{width_byte_range, width_slice_bounds, WidthSliceable};
use crate::text::spans::{spans_push_span, Spans};
use crate::text::pattern::CaptureMatch;

verus! {

/// A span of text having a single style.
#[derive(Debug, Default, PartialEq)]
pub struct Span<T> {
    style: T,
    content: String,
}

impl<T> View for Span<T> {
    type V = (T, Seq<char>);

    /// The style and the text of the span.
    closed spec fn view(&self) -> (T, Seq<char>) {
        (self.style, self.content@)
    }
}

impl<T> RawText for Span<T> {
    open spec fn raw_view(&self) -> Seq<char> {
        self@.1
    }

    fn raw(&self) -> (r: String) {
        self.content.clone()
    }

    fn raw_ref(&self) -> (r: &str) {
        self.content.as_str()
    }
}

impl<T> Span<T> {
    /// The span's style.
    pub fn style(&self) -> (r: &T)
        ensures
            *r == self@.0,
    {
        &self.style
    }

    /// A span of the given style and text.
    pub fn new(style: T, content: String) -> (r: Span<T>)
        ensures
            r@ == (style, content@),
    {
        Span { style, content }
    }

}

impl<T> Pushable<str> for Span<T> {
    /// Appends text to the span, which keeps its style.
    fn push(&mut self, other: &str)
        ensures
            final(self)@ == (old(self)@.0, old(self)@.1 + other@),
    {
        self.content.append(other);
    }
}

impl<T: StyleValue> Sliceable for Span<T> {
    /// Slices the span by bytes, keeping its style (like `str::get`).
    fn slice(&self, range: Bounds) -> (r: Option<Span<T>>)
        ensures
            match str_slice(self@.1, range) {
                Some(t) => r matches Some(x) && x@ == (self@.0, t),
                None => r is None,
            },
    {
        match slice_str(self.content.as_str(), range) {
            Some(s) => Some(Span { style: self.style.duplicate(), content: s.to_owned() }),
            None => None,
        }
    }
}

impl<T: StyleValue> WidthSliceable for Span<T> {
    type Output = Span<T>;

    /// Slices the span by display columns, keeping its style: the graphemes
    /// whose columns all lie in the range, from the first that fits up to the
    /// first after it that does not; none where no grapheme fits.
    fn slice_width(&self, range: Bounds) -> (r: Option<Span<T>>)
        ensures
            match width_byte_range(self@.1, range) {
                Some(b) => match str_slice(self@.1, b) {
                    Some(t) => r matches Some(x) && x@ == (self@.0, t),
                    None => r is None,
                },
                None => r is None,
            },
    {
        match width_slice_bounds(self.content.as_str(), range) {
            Some(b) => self.slice(b),
            None => None,
        }
    }
}

impl<T: StyleValue> Expandable for Span<T> {
    /// The span with each capture reference in its text expanded.
    fn expand(&self, capture: &CaptureMatch) -> (r: Span<T>)
        ensures
            r@ == (self@.0, regex_expansion(capture@.0, capture@.1, capture@.2, self@.1)),
            !self@.1.contains('$') ==> r@.1 == self@.1,
    {
        Span { style: self.style.duplicate(), content: expand_capture(capture, self.content.as_str()) }
    }
}

impl<T: StyleValue> Span<T> {
    /// A span with a copy of the given style and text.
    pub fn borrowed(style: &T, content: &str) -> (r: Span<T>)
        ensures
            r@ == (*style, content@),
    {
        Span { style: style.duplicate(), content: content.to_owned() }
    }


}

impl<T: StyleValue> Span<T> {
    /// Joins another span after this one into a styled text.
    pub fn join(&self, other: &Span<T>) -> (r: Spans<T>)
        ensures
            r@ == spans_push_span(spans_push_span((Seq::empty(), Seq::empty()), self@), other@),
            r.wf(),
    {
        let mut res: Spans<T> = Spans::default();
        res.push(self);
        res.push(other);
        res
    }
}

impl<T: Painter> Span<T> {
    /// The span's text with its style's markup applied.
    pub fn display(&self) -> (r: String)
        ensures
            T::paint_specified() ==> r@ == self@.0.spec_paint(self@.1),
    {
        self.style.paint(self.content.as_str())
    }
}

impl<T> BoundedWidth for Span<T> {
    open spec fn spec_bounded_width(&self) -> nat {
        display_width(self@.1)
    }

    fn bounded_width(&self) -> (r: usize) {
        text_width(self.content.as_str())
    }
}

impl<T> HasWidth for Span<T> {
    open spec fn spec_width(&self) -> Width {
        Width::Bounded(display_width(self@.1) as usize)
    }

    fn width(&self) -> (r: Width) {
        Width::Bounded(self.bounded_width())
    }
}

} // verus!
