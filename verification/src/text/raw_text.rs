//! Converting a text object into a raw, unstyled string.
use vstd::prelude::*;

verus! {

/// Support for converting a text object into a raw, unstyled string.
pub trait RawText {
    /// The raw text of the object.
    spec fn raw_view(&self) -> Seq<char>;

    /// Returns an owned copy of the raw contents of the text object.
    fn raw(&self) -> (r: String)
        ensures
            r@ == self.raw_view(),
    ;

    /// Returns a reference to the raw contents of the text object.
    fn raw_ref(&self) -> (r: &str)
        ensures
            r@ == self.raw_view(),
    ;
}

impl RawText for String {
    open spec fn raw_view(&self) -> Seq<char> {
        self@
    }

    fn raw(&self) -> (r: String) {
        self.clone()
    }

    fn raw_ref(&self) -> (r: &str) {
        self.as_str()
    }
}

impl<'a> RawText for &'a str {
    open spec fn raw_view(&self) -> Seq<char> {
        (*self)@
    }

    fn raw(&self) -> (r: String) {
        (*self).to_owned()
    }

    fn raw_ref(&self) -> (r: &str) {
        *self
    }
}

} // verus!
