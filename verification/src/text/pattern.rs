//! Regular expressions with the text they were compiled from, and the
//! capture groups of one of their matches.
use vstd::prelude::*;
use crate::outside::{compile_regex, regex_captures, regex_compiles, regex_match_spans};
use regex::{Captures, Regex};

verus! {

/// A regular expression, compiled from the text it keeps.
pub struct Pattern {
    pub(crate) text: String,
    pub(crate) regex: Regex,
}

impl View for Pattern {
    type V = Seq<char>;

    /// The text the expression was compiled from.
    closed spec fn view(&self) -> Seq<char> {
        self.text@
    }
}

/// The capture groups of one match of a pattern in a text: the match that
/// comes at `index` among the pattern's successive matches.
pub struct CaptureMatch<'a> {
    pub(crate) pattern: &'a Pattern,
    pub(crate) haystack: &'a str,
    pub(crate) index: usize,
    pub(crate) captures: Captures<'a>,
}

impl<'a> View for CaptureMatch<'a> {
    type V = (Seq<char>, Seq<char>, int);

    /// The pattern, the text it was matched in, and which match this is.
    closed spec fn view(&self) -> (Seq<char>, Seq<char>, int) {
        (self.pattern@, self.haystack@, self.index as int)
    }
}

impl Pattern {
    /// Compiles a regular expression; none where the text is not one.
    pub fn new(text: &str) -> (r: Option<Pattern>)
        ensures
            r is Some <==> regex_compiles(text@),
            r matches Some(p) ==> p@ == text@,
    {
        match compile_regex(text) {
            Some(regex) => Some(Pattern { text: text.to_owned(), regex }),
            None => None,
        }
    }

    /// The text the expression was compiled from.
    pub fn as_str(&self) -> (r: &str)
        ensures
            r@ == self@,
    {
        self.text.as_str()
    }

    /// The capture groups of the first match in the text; none where the
    /// pattern does not match.
    pub fn captures<'a>(&'a self, haystack: &'a str) -> (r: Option<CaptureMatch<'a>>)
        ensures
            r is Some <==> regex_match_spans(self@, haystack@).len() > 0,
            r matches Some(c) ==> c@ == (self@, haystack@, 0int),
    {
        let mut found = regex_captures(self, haystack);
        if found.len() > 0 {
            let first = found.remove(0);
            Some(first.2)
        } else {
            None
        }
    }
}

} // verus!
