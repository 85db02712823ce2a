//! Splitting a styled text on a delimiter.
use vstd::prelude::*;
use crate::text::matching::{
    lemma_occurrence_bytes, lemma_occurrences_in, literal_matches, match_byte_ranges, occurrences, occurs_at, step_len,
};
use crate::text::offsets::{
    byte_len, lemma_byte_len_mono, lemma_byte_len_prefix, lemma_char_index, str_len, str_slice,
};
use crate::text::painter::StyleValue;
use crate::text::raw_text::RawText;
use crate::text::sliceable::{Bound, Bounds, Sliceable};
use crate::text::spans::{spans_slice, Spans};
use crate::text::spans::replace::span_of;

verus! {

/// A segment of text split on a delimiter. The delimiter and the segment
/// are both kept because the delimiter may have a style applied to it.
#[derive(Clone, Debug, PartialEq, Eq)]
pub struct Split<T, U> {
    pub delim: Option<T>,
    pub segment: Option<U>,
}

/// The view of an optional styled text.
pub open spec fn opt_view<T>(o: Option<Spans<T>>) -> Option<(Seq<char>, Seq<(usize, T)>)> {
    match o {
        Some(x) => Some(x@),
        None => None,
    }
}

/// The (segment, delimiter) views of the splits.
pub open spec fn split_views<T>(splits: Seq<Split<Spans<T>, Spans<T>>>) -> Seq<
    (Option<(Seq<char>, Seq<(usize, T)>)>, Option<(Seq<char>, Seq<(usize, T)>)>),
> {
    splits.map_values(|s: Split<Spans<T>, Spans<T>>| (opt_view(s.segment), opt_view(s.delim)))
}

/// Where the delimiter before the one at index `i` ends (zero for the
/// first).
pub open spec fn prev_end(ms: Seq<(usize, usize)>, i: int) -> usize {
    if i <= 0 {
        0
    } else {
        ms[i - 1].1
    }
}

/// One split per delimiter: the text since the previous delimiter (none for
/// a delimiter at the very start) and the delimiter itself; then, where
/// text follows the last delimiter, that text with no delimiter.
pub open spec fn split_all<T>(src: (Seq<char>, Seq<(usize, T)>), ms: Seq<(usize, usize)>) -> Seq<
    (Option<(Seq<char>, Seq<(usize, T)>)>, Option<(Seq<char>, Seq<(usize, T)>)>),
> {
    let parts = Seq::new(
        ms.len(),
        |i: int|
            (
                if ms[i].0 == 0 {
                    None
                } else {
                    spans_slice(src, span_of(prev_end(ms, i), ms[i].0))
                },
                spans_slice(src, span_of(ms[i].0, ms[i].1)),
            ),
    );
    let last = prev_end(ms, ms.len() as int);
    if last == byte_len(src.0) {
        parts
    } else {
        parts.push((spans_slice(src, Bounds { start: Bound::Included(last), end: Bound::Unbounded }), None))
    }
}

/// Text objects that can be split on a delimiter or pattern.
pub trait Splitable<P>: Sized {
    /// Whether the object can be split; every object can, unless an
    /// implementation asks for its own well-formedness.
    open spec fn can_split(&self) -> bool {
        true
    }

    /// Splits the text object on the given pattern.
    fn split_style(&self, pattern: P) -> Vec<Split<Self, Self>>
        requires
            self.can_split(),
    ;
}

/// The text of an optional styled text (none for no text).
pub open spec fn opt_text<T>(o: Option<(Seq<char>, Seq<(usize, T)>)>) -> Seq<char> {
    match o {
        Some(v) => v.0,
        None => Seq::empty(),
    }
}

/// The texts of the splits, segment then delimiter, put back together.
pub open spec fn split_text<T>(
    parts: Seq<(Option<(Seq<char>, Seq<(usize, T)>)>, Option<(Seq<char>, Seq<(usize, T)>)>)>,
) -> Seq<char>
    decreases parts.len(),
{
    if parts.len() == 0 {
        Seq::empty()
    } else {
        split_text(parts.drop_last()) + opt_text(parts.last().0) + opt_text(parts.last().1)
    }
}

/// The part of a text between two character indices, by the byte offsets
/// where they start.
pub proof fn lemma_slice_between(s: Seq<char>, a: int, b: int)
    requires
        0 <= a <= b <= s.len(),
        byte_len(s) <= usize::MAX,
    ensures
        str_slice(s, span_of(byte_len(s.take(a)) as usize, byte_len(s.take(b)) as usize)) == Some(
            s.subrange(a, b),
        ),
        str_slice(s, Bounds { start: Bound::Included(byte_len(s.take(a)) as usize), end: Bound::Unbounded })
            == Some(s.subrange(a, s.len() as int)),
{
    lemma_byte_len_prefix(s, a);
    lemma_byte_len_prefix(s, b);
    lemma_char_index(s, byte_len(s.take(a)) as int, a);
    lemma_char_index(s, byte_len(s.take(b)) as int, b);
}

/// A styled text sliced where its text slices has that slice as its text.
pub proof fn lemma_spans_slice_text<T>(src: (Seq<char>, Seq<(usize, T)>), range: Bounds, t: Seq<char>)
    requires
        str_slice(src.0, range) == Some(t),
    ensures
        spans_slice(src, range) matches Some(v) && v.0 == t,
{
}

/// Where the delimiter before the one at index `i` ends, as a character
/// index (zero for the first).
pub open spec fn occ_end(occ: Seq<int>, pl: int, i: int) -> int {
    if i <= 0 {
        0
    } else {
        occ[i - 1] + pl
    }
}

/// The byte offsets of each delimiter, and where the text before it starts.
pub proof fn lemma_split_facts(s: Seq<char>, pattern: Seq<char>, k: int)
    requires
        byte_len(s) <= usize::MAX,
        0 <= k <= literal_matches(s, pattern).len(),
    ensures
        ({
            let occ = occurrences(s, pattern, 0);
            let ms = literal_matches(s, pattern);
            let pl = pattern.len() as int;
            &&& 0 <= occ_end(occ, pl, k) <= s.len()
            &&& prev_end(ms, k) == byte_len(s.take(occ_end(occ, pl, k)))
            &&& k < ms.len() ==> {
                &&& occs_ok(s, pattern, occ[k])
                &&& occ_end(occ, pl, k) <= occ[k]
                &&& ms[k] == (byte_len(s.take(occ[k])) as usize, byte_len(s.take(occ[k] + pl)) as usize)
            }
        }),
{
    let occ = occurrences(s, pattern, 0);
    let ms = literal_matches(s, pattern);
    let pl = pattern.len() as int;
    lemma_occurrences_in(s, pattern, 0);
    assert(s.take(0) =~= Seq::<char>::empty());
    if k > 0 {
        assert(occurs_at(s, pattern, occ[k - 1]));
        lemma_occurrence_bytes(s, pattern, occ[k - 1]);
        lemma_byte_len_prefix(s, occ[k - 1] + pl);
    }
    if k < ms.len() {
        assert(occurs_at(s, pattern, occ[k]));
        lemma_occurrence_bytes(s, pattern, occ[k]);
        if k > 0 {
            assert(occ[k - 1] + step_len(pattern) <= occ[k]);
        }
    }
}

/// Where the pattern occurs at a character index, it lies within the text.
pub open spec fn occs_ok(s: Seq<char>, pattern: Seq<char>, o: int) -> bool {
    occurs_at(s, pattern, o) && 0 <= o && o + pattern.len() <= s.len()
}

/// The splits up to the `i`th delimiter put back together are the text up
/// to the end of that delimiter.
proof fn lemma_split_prefix<T>(src: (Seq<char>, Seq<(usize, T)>), pattern: Seq<char>, i: int)
    requires
        byte_len(src.0) <= usize::MAX,
        0 <= i <= literal_matches(src.0, pattern).len(),
    ensures
        split_text(split_all(src, literal_matches(src.0, pattern)).take(i)) == src.0.take(
            occ_end(occurrences(src.0, pattern, 0), pattern.len() as int, i),
        ),
    decreases i,
{
    let s = src.0;
    let occ = occurrences(s, pattern, 0);
    let ms = literal_matches(s, pattern);
    let parts = split_all(src, ms);
    let pl = pattern.len() as int;
    if i == 0 {
        assert(parts.take(0) =~= Seq::empty());
        assert(s.take(0) =~= Seq::<char>::empty());
    } else {
        let k = i - 1;
        lemma_split_prefix(src, pattern, k);
        lemma_split_facts(s, pattern, k);
        let o = occ[k];
        let e = occ_end(occ, pl, k);
        assert(parts.take(i).drop_last() =~= parts.take(k));
        assert(parts.take(i).last() == parts[k]);
        lemma_slice_between(s, o, o + pl);
        lemma_spans_slice_text(src, span_of(ms[k].0, ms[k].1), s.subrange(o, o + pl));
        lemma_slice_between(s, e, o);
        if ms[k].0 == 0 {
            lemma_byte_len_mono(s, 0, o);
            lemma_byte_len_prefix(s, o);
            assert(s.take(0) =~= Seq::<char>::empty());
            assert(byte_len(s.take(o)) == 0);
            assert(o == 0);
        } else {
            lemma_spans_slice_text(src, span_of(prev_end(ms, k), ms[k].0), s.subrange(e, o));
        }
        assert(s.take(e) + s.subrange(e, o) + s.subrange(o, o + pl) =~= s.take(o + pl));
    }
}

/// Law: the segments and delimiters that splitting a text on a pattern
/// gives, put back together in order, are the text; each delimiter there is
/// has the pattern as its text; and only a last split, for the text after
/// the last delimiter where there is some, has no delimiter.
pub proof fn law_split_rebuilds<T>(src: (Seq<char>, Seq<(usize, T)>), pattern: Seq<char>)
    requires
        byte_len(src.0) <= usize::MAX,
    ensures
        split_text(split_all(src, literal_matches(src.0, pattern))) == src.0,
        forall|i: int|
            0 <= i < literal_matches(src.0, pattern).len() ==> ((#[trigger] split_all(
                src,
                literal_matches(src.0, pattern),
            )[i]).1 matches Some(d) && d.0 == pattern),
        ({
            let ms = literal_matches(src.0, pattern);
            let parts = split_all(src, ms);
            if prev_end(ms, ms.len() as int) == byte_len(src.0) {
                parts.len() == ms.len()
            } else {
                parts.len() == ms.len() + 1 && parts.last().1 is None
            }
        }),
{
    let s0 = src.0;
    let ms0 = literal_matches(s0, pattern);
    let occ0 = occurrences(s0, pattern, 0);
    let pl0 = pattern.len() as int;
    assert forall|i: int| 0 <= i < ms0.len() implies ((#[trigger] split_all(src, ms0)[i]).1 matches Some(d)
        && d.0 == pattern) by {
        lemma_split_facts(s0, pattern, i);
        let o = occ0[i];
        lemma_slice_between(s0, o, o + pl0);
        lemma_spans_slice_text(src, span_of(ms0[i].0, ms0[i].1), s0.subrange(o, o + pl0));
    }
    let s = src.0;
    let occ = occurrences(s, pattern, 0);
    let ms = literal_matches(s, pattern);
    let parts = split_all(src, ms);
    let n = ms.len() as int;
    let pl = pattern.len() as int;
    lemma_split_prefix(src, pattern, n);
    lemma_split_facts(s, pattern, n);
    let e = occ_end(occ, pl, n);
    let last = prev_end(ms, n);
    lemma_byte_len_prefix(s, e);
    assert(s.take(s.len() as int) =~= s);
    if last == byte_len(s) {
        if e < s.len() {
            assert(byte_len(s.take(e)) < byte_len(s));
        }
        assert(parts.take(n) =~= parts);
    } else {
        lemma_slice_between(s, e, s.len() as int);
        lemma_spans_slice_text(
            src,
            Bounds { start: Bound::Included(last), end: Bound::Unbounded },
            s.subrange(e, s.len() as int),
        );
        assert(parts.drop_last() =~= parts.take(n));
        assert(s.take(e) + s.subrange(e, s.len() as int) =~= s);
    }
}

impl<'a, T: StyleValue> Splitable<&'a str> for Spans<T> {
    open spec fn can_split(&self) -> bool {
        self.wf()
    }

    /// Splits the styled text on each occurrence of `pattern`, from the
    /// left, keeping the styles of both the segments and the delimiters.
    fn split_style(&self, pattern: &'a str) -> (r: Vec<Split<Spans<T>, Spans<T>>>)
        ensures
            split_views(r@) == split_all(self@, literal_matches(self@.0, pattern@)),
    {
        let found = match_byte_ranges(self.raw_ref(), pattern);
        let ghost ms = found@;
        let ghost parts = split_all(self@, ms);
        let mut out: Vec<Split<Spans<T>, Spans<T>>> = Vec::new();
        let mut last: usize = 0;
        let mut i: usize = 0;
        while i < found.len()
            invariant
                i <= found@.len(),
                ms == found@,
                self.wf(),
                last == prev_end(ms, i as int),
                split_views(out@) == split_all(self@, ms).take(i as int),
            decreases found.len() - i,
        {
            let start = found[i].0;
            let end = found[i].1;
            let delim = self.slice(Bounds { start: Bound::Included(start), end: Bound::Excluded(end) });
            let segment = if start == 0 {
                None
            } else {
                self.slice(Bounds { start: Bound::Included(last), end: Bound::Excluded(start) })
            };
            let ghost before = out@;
            out.push(Split { delim, segment });
            proof {
                assert(split_views(out@) =~= split_views(before).push((opt_view(segment), opt_view(delim))));
                assert(split_all(self@, ms).take(i + 1) =~= split_all(self@, ms).take(i as int).push(
                    split_all(self@, ms)[i as int],
                ));
            }
            last = end;
            i = i + 1;
        }
        proof {
            assert(split_all(self@, ms).take(ms.len() as int).len() == ms.len());
        }
        if last != str_len(self.raw_ref()) {
            let segment = self.slice(Bounds { start: Bound::Included(last), end: Bound::Unbounded });
            let ghost before = out@;
            out.push(Split { delim: None, segment });
            proof {
                assert(split_views(out@) =~= split_views(before).push((opt_view(segment), None)));
                assert(split_all(self@, ms) =~= split_all(self@, ms).take(ms.len() as int).push(
                    (opt_view(segment), None),
                ));
            }
        } else {
            proof {
                assert(split_all(self@, ms) =~= split_all(self@, ms).take(ms.len() as int));
            }
        }
        out
    }
}

/// The view of an optional text.
pub open spec fn opt_string(o: Option<String>) -> Option<Seq<char>> {
    match o {
        Some(x) => Some(x@),
        None => None,
    }
}

/// The (segment, delimiter) views of the splits of a plain text.
pub open spec fn text_split_views(splits: Seq<Split<String, String>>) -> Seq<(Option<Seq<char>>, Option<Seq<char>>)> {
    splits.map_values(|s: Split<String, String>| (opt_string(s.segment), opt_string(s.delim)))
}

/// The text of an optional styled text, where there is one.
pub open spec fn opt_plain<T>(o: Option<(Seq<char>, Seq<(usize, T)>)>) -> Option<Seq<char>> {
    match o {
        Some(v) => Some(v.0),
        None => None,
    }
}

/// One split per delimiter of a plain text, as `split_all` for a styled text.
pub open spec fn text_split_all(s: Seq<char>, ms: Seq<(usize, usize)>) -> Seq<(Option<Seq<char>>, Option<Seq<char>>)> {
    let parts = Seq::new(
        ms.len(),
        |i: int|
            (
                if ms[i].0 == 0 {
                    None
                } else {
                    str_slice(s, span_of(prev_end(ms, i), ms[i].0))
                },
                str_slice(s, span_of(ms[i].0, ms[i].1)),
            ),
    );
    let last = prev_end(ms, ms.len() as int);
    if last == byte_len(s) {
        parts
    } else {
        parts.push((str_slice(s, Bounds { start: Bound::Included(last), end: Bound::Unbounded }), None))
    }
}

impl<'a> Splitable<&'a str> for String {
    /// Splits the text on each occurrence of `pattern`, from the left.
    fn split_style(&self, pattern: &'a str) -> (r: Vec<Split<String, String>>)
        ensures
            text_split_views(r@) == text_split_all(self@, literal_matches(self@, pattern@)),
    {
        let found = match_byte_ranges(self.as_str(), pattern);
        let ghost ms = found@;
        let mut out: Vec<Split<String, String>> = Vec::new();
        let mut last: usize = 0;
        let mut i: usize = 0;
        while i < found.len()
            invariant
                i <= found@.len(),
                ms == found@,
                last == prev_end(ms, i as int),
                text_split_views(out@) == text_split_all(self@, ms).take(i as int),
            decreases found.len() - i,
        {
            let start = found[i].0;
            let end = found[i].1;
            let delim = self.slice(Bounds { start: Bound::Included(start), end: Bound::Excluded(end) });
            let segment = if start == 0 {
                None
            } else {
                self.slice(Bounds { start: Bound::Included(last), end: Bound::Excluded(start) })
            };
            let ghost before = out@;
            out.push(Split { delim, segment });
            proof {
                assert(text_split_views(out@) =~= text_split_views(before).push((opt_string(segment), opt_string(delim))));
                assert(text_split_all(self@, ms).take(i + 1) =~= text_split_all(self@, ms).take(i as int).push(
                    text_split_all(self@, ms)[i as int],
                ));
            }
            last = end;
            i = i + 1;
        }
        proof {
            assert(text_split_all(self@, ms).take(ms.len() as int).len() == ms.len());
        }
        if last != str_len(self.as_str()) {
            let segment = self.slice(Bounds { start: Bound::Included(last), end: Bound::Unbounded });
            let ghost before = out@;
            out.push(Split { delim: None, segment });
            proof {
                assert(text_split_views(out@) =~= text_split_views(before).push((opt_string(segment), None)));
                assert(text_split_all(self@, ms) =~= text_split_all(self@, ms).take(ms.len() as int).push(
                    (opt_string(segment), None),
                ));
            }
        } else {
            proof {
                assert(text_split_all(self@, ms) =~= text_split_all(self@, ms).take(ms.len() as int));
            }
        }
        out
    }
}

/// Law: splitting a styled text gives the splits of its plain text, each
/// segment and delimiter with the styles of its part of the text.
pub proof fn law_split_plain_text<T>(src: (Seq<char>, Seq<(usize, T)>), pattern: Seq<char>)
    ensures
        ({
            let ms = literal_matches(src.0, pattern);
            let styled = split_all(src, ms);
            let plain = text_split_all(src.0, ms);
            &&& styled.len() == plain.len()
            &&& forall|i: int|
                0 <= i < styled.len() ==> opt_plain((#[trigger] styled[i]).0) == plain[i].0 && opt_plain(
                    styled[i].1,
                ) == plain[i].1
        }),
{
}

} // verus!
