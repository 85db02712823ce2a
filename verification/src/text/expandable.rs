//! Expanding regular expression captures in text objects.
use vstd::prelude::*;
use crate::outside::{expand_capture, regex_expansion};
use crate::text::pattern::CaptureMatch;

verus! {

/// Expanding regex captures in text objects.
pub trait Expandable: Sized {
    /// Whether the object can be expanded; every object can, unless an
    /// implementation asks for its own well-formedness.
    open spec fn can_expand(&self) -> bool {
        true
    }

    /// Returns the object with the capture references in its text
    /// expanded from the capture groups.
    fn expand(&self, capture: &CaptureMatch) -> Self
        requires
            self.can_expand(),
    ;
}

impl Expandable for String {
    /// The text as a template, with its `$` references expanded from the
    /// capture groups; a text without `$` stays as it is.
    fn expand(&self, capture: &CaptureMatch) -> (r: String)
        ensures
            r@ == regex_expansion(capture@.0, capture@.1, capture@.2, self@),
            !self@.contains('$') ==> r@ == self@,
    {
        expand_capture(capture, self.as_str())
    }
}

} // verus!
