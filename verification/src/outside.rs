//! The calls this library makes into the crates `unicode-width`,
//! `unicode-segmentation` and `regex`, with what each promises.
use vstd::prelude::*;
use crate::text::offsets::char_index;
use crate::text::pattern::{CaptureMatch, Pattern};
use regex::{Captures, Regex};
use unicode_segmentation::UnicodeSegmentation;
use unicode_width::UnicodeWidthStr;

verus! {

/// A compiled regular expression.
#[verifier::external_type_specification]
#[verifier::external_body]
pub struct ExRegex(Regex);

/// The capture groups of one match of a regular expression.
#[verifier::external_type_specification]
#[verifier::external_body]
pub struct ExCaptures<'h>(Captures<'h>);

/// The number of terminal columns that a text takes, as `unicode-width`
/// measures it (UAX #11 with its ligature rules).
pub uninterp spec fn display_width(s: Seq<char>) -> nat;

/// The extended grapheme clusters of a text, as `unicode-segmentation`
/// splits it (UAX #29).
pub uninterp spec fn grapheme_clusters(s: Seq<char>) -> Seq<Seq<char>>;

/// The texts joined end to end.
pub open spec fn joined(parts: Seq<Seq<char>>) -> Seq<char>
    decreases parts.len(),
{
    if parts.len() == 0 {
        Seq::empty()
    } else {
        joined(parts.drop_last()) + parts.last()
    }
}

/// Calls `UnicodeWidthStr::width`: the result is the displayed width of the
/// text; nothing is stated of how it is computed.
#[verifier::external_body]
pub fn text_width(s: &str) -> (r: usize)
    ensures
        r == display_width(s@),
{
    UnicodeWidthStr::width(s)
}

/// Calls `UnicodeSegmentation::graphemes` with extended clusters: the
/// clusters are named by `grapheme_clusters`; as the crate's source cuts the
/// text at boundaries from its start to its end, each cluster is non-empty
/// and the clusters joined give the text back.
#[verifier::external_body]
pub fn graphemes_of<'a>(s: &'a str) -> (r: Vec<&'a str>)
    ensures
        r.deep_view() == grapheme_clusters(s@),
        joined(r.deep_view()) == s@,
        forall|i: int| 0 <= i < r.len() ==> (#[trigger] r.deep_view()[i]).len() > 0,
{
    s.graphemes(true).collect()
}

/// Whether `Regex::new` compiles the text with the crate's default options
/// (syntax and size limits).
pub uninterp spec fn regex_compiles(pattern: Seq<char>) -> bool;

/// The byte ranges of the successive non-overlapping matches of the
/// regular expression written `pattern` in `haystack`, leftmost-first, as
/// `Regex::captures_iter` finds them.
pub uninterp spec fn regex_match_spans(pattern: Seq<char>, haystack: Seq<char>) -> Seq<(usize, usize)>;

/// What `Captures::expand` writes for `template` with the capture groups of
/// the match at `index` among those of `pattern` in `haystack`.
pub uninterp spec fn regex_expansion(pattern: Seq<char>, haystack: Seq<char>, index: int, template: Seq<char>) -> Seq<
    char,
>;

/// Calls `Regex::new`: whether it succeeds is named by `regex_compiles`.
#[verifier::external_body]
pub fn compile_regex(pattern: &str) -> (r: Option<Regex>)
    ensures
        r is Some <==> regex_compiles(pattern@),
{
    Regex::new(pattern).ok()
}

/// Calls `Regex::captures_iter` on the expression the pattern was compiled
/// from (a `Pattern` is only built by `Pattern::new`), and `Captures::get_match`
/// on each item: each match's byte range and capture groups, in the order
/// the crate yields them. The ranges are those named by `regex_match_spans`;
/// as the crate documents, they come in order, do not overlap, lie within
/// the text and start and end at character boundaries.
#[verifier::external_body]
pub fn regex_captures<'a>(pattern: &'a Pattern, haystack: &'a str) -> (r: Vec<(usize, usize, CaptureMatch<'a>)>)
    ensures
        r.len() == regex_match_spans(pattern@, haystack@).len(),
        forall|i: int|
            0 <= i < r.len() ==> (#[trigger] r[i]).0 == regex_match_spans(pattern@, haystack@)[i].0
                && r[i].1 == regex_match_spans(pattern@, haystack@)[i].1 && r[i].2@ == (pattern@, haystack@, i),
        forall|i: int|
            0 <= i < r.len() ==> (#[trigger] r[i]).0 <= r[i].1 && char_index(
                haystack@,
                r[i].0 as int,
            ) is Some && char_index(haystack@, r[i].1 as int) is Some,
        forall|i: int| 0 < i < r.len() ==> r[i - 1].1 <= (#[trigger] r[i]).0,
{
    pattern.regex.captures_iter(haystack).enumerate().map(|(index, captures)| {
        let m = captures.get_match();
        (m.start(), m.end(), CaptureMatch { pattern, haystack, index, captures })
    }).collect()
}

/// Calls `Captures::expand`: the template with its `$` references to
/// capture groups replaced by what those groups matched, named by
/// `regex_expansion`. As the crate's source shows, a template without `$`
/// comes back unchanged.
#[verifier::external_body]
pub fn expand_capture(capture: &CaptureMatch, template: &str) -> (r: String)
    ensures
        r@ == regex_expansion(capture@.0, capture@.1, capture@.2, template@),
        !template@.contains('$') ==> r@ == template@,
{
    let mut dst = String::new();
    capture.captures.expand(template, &mut dst);
    dst
}

} // verus!
