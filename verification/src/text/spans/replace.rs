//! Replacing parts of a styled text: the replacement text takes the styles
//! of the part it replaces.
use vstd::prelude::*;
use crate::outside::{expand_capture, regex_captures, regex_expansion, regex_match_spans};
use crate::text::matching::{lemma_next_occurrence, literal_matches, match_byte_ranges, occurrences, occurs_at};
use crate::text::offsets::{
    byte_len, char_index, lemma_byte_len_mono, lemma_byte_len_prefix, lemma_char_index, lemma_char_index_range,
    lemma_slice_whole, str_len, str_slice,
};
use crate::text::painter::StyleValue;
use crate::text::raw_text::RawText;
use crate::text::pushable::Pushable;
use crate::text::expandable::Expandable;
use crate::text::replaceable::Replaceable;
use crate::text::sliceable::{Bound, Bounds, Sliceable};
use crate::text::spans::{
    can_shift, span_views, spans_from_pieces, spans_pieces, spans_push, spans_slice, trim_key, Spans,
};
use crate::text::spans::search_tree::seq_trim;
use crate::text::splitable::{lemma_slice_between, lemma_spans_slice_text, lemma_split_facts, occ_end, prev_end};
use crate::text::replaceable::{regex_replacements, text_match_fold, text_match_replaced, text_replace_fold, text_replaced};
use crate::text::pattern::{CaptureMatch, Pattern};

verus! {

/// A styled text pushed onto another, where no offset overflows.
pub open spec fn push_checked<T: StyleValue>(
    acc: Option<(Seq<char>, Seq<(usize, T)>)>,
    b: (Seq<char>, Seq<(usize, T)>),
) -> Option<(Seq<char>, Seq<(usize, T)>)> {
    match acc {
        Some(a) => if can_shift(a.0, b.1) {
            Some(spans_push(a, b))
        } else {
            None
        },
        None => None,
    }
}

/// The byte range from `start` up to `end`.
pub open spec fn span_of(start: usize, end: usize) -> Bounds {
    Bounds { start: Bound::Included(start), end: Bound::Excluded(end) }
}

/// One replacement (start, end, new text) applied to what has been built so
/// far and where the last replaced part ended: the source from there to the
/// start is pushed, then the part from start to end with its text replaced.
/// Where the first slice fails, nothing is pushed, and the end is taken as
/// the new place to go on from only if `advance_always` holds.
pub open spec fn splice_step<T: StyleValue>(
    src: (Seq<char>, Seq<(usize, T)>),
    acc: Option<((Seq<char>, Seq<(usize, T)>), usize)>,
    m: (usize, usize, Seq<char>),
    advance_always: bool,
) -> Option<((Seq<char>, Seq<(usize, T)>), usize)> {
    match acc {
        None => None,
        Some((res, last)) => match spans_slice(src, span_of(last, m.0)) {
            None => Some((res, if advance_always { m.1 } else { last })),
            Some(piece) => match push_checked(Some(res), piece) {
                None => None,
                Some(res1) => match spans_slice(src, span_of(m.0, m.1)) {
                    None => Some((res1, m.1)),
                    Some(part) => match push_checked(Some(res1), (m.2, part.1)) {
                        None => None,
                        Some(res2) => Some((res2, m.1)),
                    },
                },
            },
        },
    }
}

/// The replacements applied in order, starting from an empty text.
pub open spec fn splice_fold<T: StyleValue>(
    src: (Seq<char>, Seq<(usize, T)>),
    ms: Seq<(usize, usize, Seq<char>)>,
    advance_always: bool,
) -> Option<((Seq<char>, Seq<(usize, T)>), usize)>
    decreases ms.len(),
{
    if ms.len() == 0 {
        Some(((Seq::empty(), Seq::empty()), 0))
    } else {
        splice_step(src, splice_fold(src, ms.drop_last(), advance_always), ms.last(), advance_always)
    }
}

/// The text with the replacements applied: after the last one, the rest of
/// the source is pushed and runs past the last byte are dropped. None where
/// an offset would overflow.
pub open spec fn spliced<T: StyleValue>(
    src: (Seq<char>, Seq<(usize, T)>),
    ms: Seq<(usize, usize, Seq<char>)>,
    advance_always: bool,
) -> Option<(Seq<char>, Seq<(usize, T)>)> {
    match splice_fold(src, ms, advance_always) {
        None => None,
        Some((res, last)) => {
            let pushed = match spans_slice(src, Bounds { start: Bound::Included(last), end: Bound::Unbounded }) {
                Some(tail) => push_checked(Some(res), tail),
                None => Some(res),
            };
            match pushed {
                None => None,
                Some(x) => Some((x.0, seq_trim(x.1, trim_key(x.0)))),
            }
        },
    }
}

/// The replacements as values.
pub open spec fn replacement_views(ms: Seq<(usize, usize, String)>) -> Seq<(usize, usize, Seq<char>)> {
    ms.map_values(|m: (usize, usize, String)| (m.0, m.1, m.2@))
}

/// Each occurrence of a pattern in the text, to be replaced by one text.
pub open spec fn literal_replacements(text: Seq<char>, pattern: Seq<char>, replacer: Seq<char>) -> Seq<
    (usize, usize, Seq<char>),
> {
    literal_matches(text, pattern).map_values(|m: (usize, usize)| (m.0, m.1, replacer))
}

/// Whether the replacements come in order, do not overlap, and start and
/// end at character boundaries of the text.
pub open spec fn ordered_within(text: Seq<char>, ms: Seq<(usize, usize, Seq<char>)>) -> bool {
    &&& forall|i: int|
        0 <= i < ms.len() ==> (#[trigger] ms[i]).0 <= ms[i].1 && char_index(text, ms[i].0 as int) is Some
            && char_index(text, ms[i].1 as int) is Some
    &&& forall|i: int| 0 < i < ms.len() ==> ms[i - 1].1 <= (#[trigger] ms[i]).0
}

/// The pushed part of the source when it is not empty.
pub open spec fn push_nonempty<T: StyleValue>(
    acc: Option<(Seq<char>, Seq<(usize, T)>)>,
    piece: Option<(Seq<char>, Seq<(usize, T)>)>,
) -> Option<(Seq<char>, Seq<(usize, T)>)> {
    match piece {
        Some(p) => if p.0.len() > 0 {
            push_checked(acc, p)
        } else {
            acc
        },
        None => acc,
    }
}

/// Styled literal replacement after some occurrences: the non-empty source
/// text before each occurrence is pushed, then the styled replacement.
pub open spec fn styled_fold<T: StyleValue>(
    src: (Seq<char>, Seq<(usize, T)>),
    ms: Seq<(usize, usize)>,
    replacer: (Seq<char>, Seq<(usize, T)>),
) -> (Option<(Seq<char>, Seq<(usize, T)>)>, usize)
    decreases ms.len(),
{
    if ms.len() == 0 {
        (Some((Seq::empty(), Seq::empty())), 0)
    } else {
        let (acc, last) = styled_fold(src, ms.drop_last(), replacer);
        let m = ms.last();
        (push_checked(push_nonempty(acc, spans_slice(src, span_of(last, m.0))), replacer), m.1)
    }
}

/// The text with each occurrence replaced by the styled replacement, the
/// non-empty rest of the source pushed last; none where an offset would
/// overflow.
pub open spec fn styled_replaced<T: StyleValue>(
    src: (Seq<char>, Seq<(usize, T)>),
    ms: Seq<(usize, usize)>,
    replacer: (Seq<char>, Seq<(usize, T)>),
) -> Option<(Seq<char>, Seq<(usize, T)>)> {
    let (acc, last) = styled_fold(src, ms, replacer);
    push_nonempty(acc, spans_slice(src, Bounds { start: Bound::Included(last), end: Bound::Unbounded }))
}

/// Styled replacement of matches, each with its own replacement: where the
/// source before the match slices, it is pushed, and where the match also
/// slices, the match's replacement.
pub open spec fn styled_match_fold<T: StyleValue>(
    src: (Seq<char>, Seq<(usize, T)>),
    ms: Seq<(usize, usize, (Seq<char>, Seq<(usize, T)>))>,
) -> (Option<(Seq<char>, Seq<(usize, T)>)>, usize)
    decreases ms.len(),
{
    if ms.len() == 0 {
        (Some((Seq::empty(), Seq::empty())), 0)
    } else {
        let (acc, last) = styled_match_fold(src, ms.drop_last());
        let m = ms.last();
        match spans_slice(src, span_of(last, m.0)) {
            Some(piece) => {
                let acc1 = push_checked(acc, piece);
                match spans_slice(src, span_of(m.0, m.1)) {
                    Some(_) => (push_checked(acc1, m.2), m.1),
                    None => (acc1, m.1),
                }
            },
            None => (acc, m.1),
        }
    }
}

/// The text with each match replaced by its styled replacement and the
/// rest of the source pushed last; none where an offset would overflow.
pub open spec fn styled_match_replaced<T: StyleValue>(
    src: (Seq<char>, Seq<(usize, T)>),
    ms: Seq<(usize, usize, (Seq<char>, Seq<(usize, T)>))>,
) -> Option<(Seq<char>, Seq<(usize, T)>)> {
    let (acc, last) = styled_match_fold(src, ms);
    match spans_slice(src, Bounds { start: Bound::Included(last), end: Bound::Unbounded }) {
        Some(tail) => push_checked(acc, tail),
        None => acc,
    }
}

impl<T: StyleValue> Spans<T> {
    /// Applies the replacements (start, end, new text) in order: the text
    /// between replaced parts is kept with its styles, and each replaced
    /// part gets the new text with the styles of the part.
    pub fn splice_replacements(&self, ms: &Vec<(usize, usize, String)>, advance_always: bool) -> (r:
        Spans<T>)
        requires
            self.wf(),
        ensures
            spliced(self@, replacement_views(ms@), advance_always) == Some(r@),
            r.wf(),
    {
        let mut result: Spans<T> = Spans::default();
        let mut last: usize = 0;
        let mut i: usize = 0;
        while i < ms.len()
            invariant
                i <= ms@.len(),
                self.wf(),
                result.wf(),
                splice_fold(self@, replacement_views(ms@.take(i as int)), advance_always) == Some(
                    (result@, last),
                ),
            decreases ms.len() - i,
        {
            proof {
                assert(replacement_views(ms@.take(i + 1)).drop_last() =~= replacement_views(
                    ms@.take(i as int),
                ));
                assert(replacement_views(ms@.take(i + 1)).last() == (ms@[i as int].0, ms@[i as int].1, ms@[i as int].2@));
            }
            let start = ms[i].0;
            let end = ms[i].1;
            match self.slice(Bounds { start: Bound::Included(last), end: Bound::Excluded(start) }) {
                Some(piece) => {
                    result.push(&piece);
                    match self.slice(Bounds { start: Bound::Included(start), end: Bound::Excluded(end) }) {
                        Some(part) => {
                            let mut part = part;
                            part.set_text(ms[i].2.clone());
                            result.push(&part);
                        },
                        None => {},
                    }
                    last = end;
                },
                None => {
                    if advance_always {
                        last = end;
                    }
                },
            }
            i = i + 1;
        }
        proof {
            assert(ms@.take(ms@.len() as int) =~= ms@);
        }
        match self.slice(Bounds { start: Bound::Included(last), end: Bound::Unbounded }) {
            Some(tail) => {
                result.push(&tail);
            },
            None => {},
        }
        result.trim();
        result
    }
}

/// The pieces with each one's text expanded as a template from the capture
/// groups of a match `c` (pattern, text, which match).
pub open spec fn expanded_pieces<T>(pieces: Seq<(T, Seq<char>)>, c: (Seq<char>, Seq<char>, int)) -> Seq<
    (T, Seq<char>),
> {
    Seq::new(pieces.len(), |i: int| (pieces[i].0, regex_expansion(c.0, c.1, c.2, pieces[i].1)))
}

/// Whether `r` is `src` rebuilt span by span, each span's text expanded as
/// a template from the capture groups of the match `c`, each span keeping
/// its style.
pub open spec fn expansion_of<T: StyleValue>(
    src: (Seq<char>, Seq<(usize, T)>),
    c: (Seq<char>, Seq<char>, int),
    r: (Seq<char>, Seq<(usize, T)>),
) -> bool {
    exists|plain: T|
        #![trigger spans_pieces(src, plain)]
        plain.is_plain() && r == spans_from_pieces(expanded_pieces(spans_pieces(src, plain), c))
}

impl<T: StyleValue> Expandable for Spans<T> {
    open spec fn can_expand(&self) -> bool {
        self.wf()
    }

    /// The styled text with capture references expanded in each span, which
    /// keeps its style.
    fn expand(&self, capture: &CaptureMatch) -> (r: Spans<T>)
        ensures
            expansion_of(self@, capture@, r@),
            r.wf(),
    {
        let spans = self.spans();
        let ghost plain = choose|p: T| p.is_plain() && span_views(spans@) == spans_pieces(self@, p);
        let ghost pieces = span_views(spans@);
        let mut result: Spans<T> = Spans::default();
        let mut i: usize = 0;
        while i < spans.len()
            invariant
                i <= spans@.len(),
                pieces == span_views(spans@),
                result.wf(),
                result@ == spans_from_pieces(expanded_pieces(pieces.take(i as int), capture@)),
            decreases spans.len() - i,
        {
            let new_span = spans[i].expand(capture);
            result.push(&new_span);
            proof {
                let e1 = expanded_pieces(pieces.take(i + 1), capture@);
                assert(e1.drop_last() =~= expanded_pieces(pieces.take(i as int), capture@));
                assert(e1.last() == new_span@);
            }
            i = i + 1;
        }
        proof {
            assert(pieces.take(i as int) =~= pieces);
            assert(result@ == spans_from_pieces(expanded_pieces(spans_pieces(self@, plain), capture@)));
        }
        result
    }
}

/// The styled replacements as values.
pub open spec fn styled_views<T>(ms: Seq<(usize, usize, Spans<T>)>) -> Seq<
    (usize, usize, (Seq<char>, Seq<(usize, T)>)),
> {
    ms.map_values(|m: (usize, usize, Spans<T>)| (m.0, m.1, m.2@))
}

impl<T: StyleValue> Spans<T> {
    /// Replaces the given byte ranges (start, end, styled text) in order:
    /// where the text before a range slices, it is pushed with its styles,
    /// and where the range also slices, its styled text follows; the rest of
    /// the text comes last.
    pub fn replace_styled_matches(&self, ms: &Vec<(usize, usize, Spans<T>)>) -> (r: Spans<T>)
        requires
            self.wf(),
            forall|i: int| 0 <= i < ms@.len() ==> (#[trigger] ms@[i]).2.wf(),
        ensures
            styled_match_replaced(self@, styled_views(ms@)) == Some(r@),
            ordered_within(self@.0, plain_replacements(styled_views(ms@))) ==> r@.0 == text_match_replaced(
                self@.0,
                plain_replacements(styled_views(ms@)),
            ),
            r.wf(),
    {
        let mut result: Spans<T> = Spans::default();
        let mut last: usize = 0;
        let mut i: usize = 0;
        while i < ms.len()
            invariant
                i <= ms@.len(),
                self.wf(),
                forall|j: int| 0 <= j < ms@.len() ==> (#[trigger] ms@[j]).2.wf(),
                result.wf(),
                styled_match_fold(self@, styled_views(ms@).take(i as int)) == (Some(result@), last),
            decreases ms.len() - i,
        {
            proof {
                assert(styled_views(ms@).take(i + 1).drop_last() =~= styled_views(ms@).take(i as int));
                assert(styled_views(ms@).take(i + 1).last() == (ms@[i as int].0, ms@[i as int].1, ms@[i as int].2@));
            }
            let start = ms[i].0;
            let end = ms[i].1;
            match self.slice(Bounds { start: Bound::Included(last), end: Bound::Excluded(start) }) {
                Some(piece) => {
                    result.push(&piece);
                    match self.slice(Bounds { start: Bound::Included(start), end: Bound::Excluded(end) }) {
                        Some(_) => {
                            result.push(&ms[i].2);
                        },
                        None => {},
                    }
                },
                None => {},
            }
            last = end;
            i = i + 1;
        }
        proof {
            assert(styled_views(ms@).take(ms@.len() as int) =~= styled_views(ms@));
        }
        match self.slice(Bounds { start: Bound::Included(last), end: Bound::Unbounded }) {
            Some(tail) => {
                result.push(&tail);
            },
            None => {},
        }
        proof {
            if ordered_within(self@.0, plain_replacements(styled_views(ms@))) {
                law_styled_match_text(self@, styled_views(ms@));
            }
        }
        result
    }
}

impl<'a, T: StyleValue> Replaceable<&'a str> for Spans<T> {
    open spec fn can_replace(&self, replacer: &'a str) -> bool {
        self.wf()
    }

    /// Replaces each occurrence of `from`, from the left, with the text
    /// `replacer`, which takes the styles of the text it replaces.
    fn replace(&self, from: &str, replacer: &'a str) -> (r: Spans<T>)
        ensures
            spliced(self@, literal_replacements(self@.0, from@, replacer@), true) == Some(r@),
            r@.0 == text_replaced(self@.0, literal_matches(self@.0, from@), replacer@),
            r.wf(),
    {
        let _total = str_len(self.raw_ref());
        let found = match_byte_ranges(self.raw_ref(), from);
        let mut ms: Vec<(usize, usize, String)> = Vec::new();
        let mut i: usize = 0;
        while i < found.len()
            invariant
                i <= found@.len(),
                found@ == literal_matches(self@.0, from@),
                replacement_views(ms@) == literal_replacements(self@.0, from@, replacer@).take(i as int),
            decreases found.len() - i,
        {
            let ghost before = ms@;
            ms.push((found[i].0, found[i].1, replacer.to_owned()));
            proof {
                assert(replacement_views(ms@) =~= replacement_views(before).push((found@[i as int].0, found@[i as int].1, replacer@)));
                assert(replacement_views(ms@) =~= literal_replacements(self@.0, from@, replacer@).take(i + 1));
            }
            i = i + 1;
        }
        proof {
            assert(literal_replacements(self@.0, from@, replacer@).take(i as int) =~= literal_replacements(self@.0, from@, replacer@));
        }
        let r = self.splice_replacements(&ms, true);
        proof {
            law_replace_text(self@, from@, replacer@);
        }
        r
    }

    /// Replaces each match of the regular expression, from the left, with
    /// `replacer` with its capture references expanded from that match; the
    /// new text takes the styles of the text it replaces.
    fn replace_regex(&self, searcher: &Pattern, replacer: &'a str) -> (r: Spans<T>)
        ensures
            spliced(self@, regex_replacements(searcher@, self@.0, replacer@), false) == Some(r@),
            r@.0 == text_match_replaced(self@.0, regex_replacements(searcher@, self@.0, replacer@)),
            r.wf(),
    {
        let found = regex_captures(searcher, self.raw_ref());
        let ghost want = regex_replacements(searcher@, self@.0, replacer@);
        let mut ms: Vec<(usize, usize, String)> = Vec::new();
        let mut i: usize = 0;
        while i < found.len()
            invariant
                i <= found@.len(),
                found@.len() == want.len(),
                want == regex_replacements(searcher@, self@.0, replacer@),
                forall|j: int|
                    0 <= j < found@.len() ==> (#[trigger] found@[j]).0 == regex_match_spans(searcher@, self@.0)[j].0
                        && found@[j].1 == regex_match_spans(searcher@, self@.0)[j].1 && found@[j].2@ == (
                        searcher@,
                        self@.0,
                        j,
                    ),
                replacement_views(ms@) == want.take(i as int),
            decreases found.len() - i,
        {
            let text = expand_capture(&found[i].2, replacer);
            let ghost before = ms@;
            ms.push((found[i].0, found[i].1, text));
            proof {
                assert(replacement_views(ms@) =~= replacement_views(before).push((found@[i as int].0, found@[i as int].1, text@)));
                assert(replacement_views(ms@) =~= want.take(i + 1));
            }
            i = i + 1;
        }
        proof {
            assert(want.take(i as int) =~= want);
        }
        let r = self.splice_replacements(&ms, false);
        proof {
            assert(ordered_within(self@.0, want)) by {
                assert forall|j: int| 0 < j < want.len() implies want[j - 1].1 <= (#[trigger] want[j]).0 by {
                    assert(found@[j - 1].1 <= found@[j].0);
                }
                assert forall|j: int| 0 <= j < want.len() implies (#[trigger] want[j]).0 <= want[j].1
                    && char_index(self@.0, want[j].0 as int) is Some && char_index(
                    self@.0,
                    want[j].1 as int,
                ) is Some by {
                    assert(found@[j].0 <= found@[j].1);
                }
            }
            law_ordered_replace_text(self@, want);
        }
        r
    }
}

impl<'a, T: StyleValue> Replaceable<&'a Spans<T>> for Spans<T> {
    open spec fn can_replace(&self, replacer: &'a Spans<T>) -> bool {
        self.wf() && replacer.wf()
    }

    /// Replaces each occurrence of `from`, from the left, with a copy of the
    /// styled text `replacer`; the non-empty text around the occurrences
    /// keeps its styles.
    fn replace(&self, from: &str, replacer: &'a Spans<T>) -> (r: Spans<T>)
        ensures
            styled_replaced(self@, literal_matches(self@.0, from@), replacer@) == Some(r@),
            r@.0 == text_replaced(self@.0, literal_matches(self@.0, from@), replacer@.0),
            r.wf(),
    {
        let _total = str_len(self.raw_ref());
        let found = match_byte_ranges(self.raw_ref(), from);
        let mut result: Spans<T> = Spans::default();
        let mut last: usize = 0;
        let mut i: usize = 0;
        while i < found.len()
            invariant
                i <= found@.len(),
                found@ == literal_matches(self@.0, from@),
                self.wf(),
                replacer.wf(),
                result.wf(),
                styled_fold(self@, found@.take(i as int), replacer@) == (Some(result@), last),
            decreases found.len() - i,
        {
            proof {
                assert(found@.take(i + 1).drop_last() =~= found@.take(i as int));
            }
            let start = found[i].0;
            match self.slice(Bounds { start: Bound::Included(last), end: Bound::Excluded(start) }) {
                Some(piece) => {
                    if !piece.raw_ref().is_empty() {
                        result.push(&piece);
                    }
                },
                None => {},
            }
            result.push(replacer);
            last = found[i].1;
            i = i + 1;
        }
        proof {
            assert(found@.take(found@.len() as int) =~= found@);
        }
        match self.slice(Bounds { start: Bound::Included(last), end: Bound::Unbounded }) {
            Some(tail) => {
                if !tail.raw_ref().is_empty() {
                    result.push(&tail);
                }
            },
            None => {},
        }
        proof {
            law_styled_replace_text(self@, from@, replacer@);
        }
        result
    }

    /// Replaces each match of the regular expression, from the left, with
    /// the styled text `replacer` with its capture references expanded from
    /// that match.
    fn replace_regex(&self, searcher: &Pattern, replacer: &'a Spans<T>) -> (r: Spans<T>)
        ensures
            exists|ms: Seq<(usize, usize, (Seq<char>, Seq<(usize, T)>))>|
                #![trigger styled_match_replaced(self@, ms)]
                {
                    &&& ms.len() == regex_match_spans(searcher@, self@.0).len()
                    &&& forall|i: int|
                        0 <= i < ms.len() ==> (#[trigger] ms[i]).0 == regex_match_spans(searcher@, self@.0)[i].0
                            && ms[i].1 == regex_match_spans(searcher@, self@.0)[i].1 && expansion_of(
                            replacer@,
                            (searcher@, self@.0, i),
                            ms[i].2,
                        )
                    &&& styled_match_replaced(self@, ms) == Some(r@)
                    &&& r@.0 == text_match_replaced(self@.0, plain_replacements(ms))
                },
            r.wf(),
    {
        let found = regex_captures(searcher, self.raw_ref());
        let mut ms: Vec<(usize, usize, Spans<T>)> = Vec::new();
        let mut i: usize = 0;
        while i < found.len()
            invariant
                i <= found@.len(),
                replacer.wf(),
                found@.len() == regex_match_spans(searcher@, self@.0).len(),
                forall|j: int|
                    0 <= j < found@.len() ==> (#[trigger] found@[j]).0 == regex_match_spans(searcher@, self@.0)[j].0
                        && found@[j].1 == regex_match_spans(searcher@, self@.0)[j].1 && found@[j].2@ == (
                        searcher@,
                        self@.0,
                        j,
                    ),
                ms@.len() == i,
                forall|j: int|
                    0 <= j < i ==> (#[trigger] ms@[j]).0 == found@[j].0 && ms@[j].1 == found@[j].1 && ms@[j].2.wf()
                        && expansion_of(replacer@, (searcher@, self@.0, j), ms@[j].2@),
            decreases found.len() - i,
        {
            let expanded = replacer.expand(&found[i].2);
            ms.push((found[i].0, found[i].1, expanded));
            i = i + 1;
        }
        let r = self.replace_styled_matches(&ms);
        proof {
            let v = styled_views(ms@);
            let p = plain_replacements(v);
            assert(ordered_within(self@.0, p)) by {
                assert forall|j: int| 0 < j < p.len() implies p[j - 1].1 <= (#[trigger] p[j]).0 by {
                    assert(found@[j - 1].1 <= found@[j].0);
                    assert(p[j] == (ms@[j].0, ms@[j].1, ms@[j].2@.0));
                    assert(p[j - 1] == (ms@[j - 1].0, ms@[j - 1].1, ms@[j - 1].2@.0));
                }
                assert forall|j: int| 0 <= j < p.len() implies (#[trigger] p[j]).0 <= p[j].1 && char_index(
                    self@.0,
                    p[j].0 as int,
                ) is Some && char_index(self@.0, p[j].1 as int) is Some by {
                    assert(found@[j].0 <= found@[j].1);
                    assert(p[j] == (ms@[j].0, ms@[j].1, ms@[j].2@.0));
                }
            }
            assert forall|j: int| 0 <= j < v.len() implies (#[trigger] v[j]).0 == regex_match_spans(
                searcher@,
                self@.0,
            )[j].0 && v[j].1 == regex_match_spans(searcher@, self@.0)[j].1 && expansion_of(
                replacer@,
                (searcher@, self@.0, j),
                v[j].2,
            ) by {
                assert(v[j] == (ms@[j].0, ms@[j].1, ms@[j].2@));
            }
        }
        r
    }
}

/// Once the fold has failed on a prefix of the replacements, the whole
/// replacement fails.
proof fn lemma_fold_none_after<T: StyleValue>(
    src: (Seq<char>, Seq<(usize, T)>),
    ms: Seq<(usize, usize, Seq<char>)>,
    advance_always: bool,
    k: int,
)
    requires
        0 <= k <= ms.len(),
        splice_fold(src, ms.take(k), advance_always) is None,
    ensures
        splice_fold(src, ms, advance_always) is None,
        spliced(src, ms, advance_always) is None,
    decreases ms.len() - k,
{
    if k < ms.len() {
        assert(ms.take(k + 1).drop_last() =~= ms.take(k));
        lemma_fold_none_after(src, ms, advance_always, k + 1);
    } else {
        assert(ms.take(k) =~= ms);
    }
}

/// Replacing the first `i` occurrences in a styled text gives the text that
/// replacing them in the plain text gives, and goes on from the same place.
proof fn lemma_replace_prefix<T: StyleValue>(
    src: (Seq<char>, Seq<(usize, T)>),
    pattern: Seq<char>,
    replacer: Seq<char>,
    i: int,
)
    requires
        byte_len(src.0) <= usize::MAX,
        0 <= i <= literal_matches(src.0, pattern).len(),
        splice_fold(src, literal_replacements(src.0, pattern, replacer).take(i), true) is Some,
    ensures
        ({
            let lm = literal_matches(src.0, pattern);
            let (res, last) = splice_fold(src, literal_replacements(src.0, pattern, replacer).take(i), true).unwrap();
            let (acc, tlast) = text_replace_fold(src.0, lm.take(i), replacer);
            res.0 == acc && last == tlast && last == prev_end(lm, i)
        }),
    decreases i,
{
    let s = src.0;
    let lm = literal_matches(s, pattern);
    let lr = literal_replacements(s, pattern, replacer);
    if i == 0 {
        assert(lr.take(0) =~= Seq::<(usize, usize, Seq<char>)>::empty());
        assert(lm.take(0) =~= Seq::<(usize, usize)>::empty());
    } else {
        let k = i - 1;
        assert(lr.take(i).drop_last() =~= lr.take(k));
        assert(lm.take(i).drop_last() =~= lm.take(k));
        assert(lr.take(i).last() == lr[k]);
        assert(lm.take(i).last() == lm[k]);
        assert(lr[k] == (lm[k].0, lm[k].1, replacer));
        if splice_fold(src, lr.take(k), true) is None {
            assert(splice_fold(src, lr.take(i), true) is None);
        }
        lemma_replace_prefix(src, pattern, replacer, k);
        lemma_split_facts(s, pattern, k);
        let occ = occurrences(s, pattern, 0);
        let pl = pattern.len() as int;
        let o = occ[k];
        let e = occ_end(occ, pl, k);
        lemma_slice_between(s, e, o);
        lemma_slice_between(s, o, o + pl);
        lemma_spans_slice_text(src, span_of(prev_end(lm, k), lm[k].0), s.subrange(e, o));
        lemma_spans_slice_text(src, span_of(lm[k].0, lm[k].1), s.subrange(o, o + pl));
    }
}

/// Law: replacing a pattern in a styled text, where no offset overflows,
/// gives the text that replacing it in the plain text gives.
pub proof fn law_replace_text<T: StyleValue>(
    src: (Seq<char>, Seq<(usize, T)>),
    pattern: Seq<char>,
    replacer: Seq<char>,
)
    requires
        byte_len(src.0) <= usize::MAX,
        spliced(src, literal_replacements(src.0, pattern, replacer), true) is Some,
    ensures
        spliced(src, literal_replacements(src.0, pattern, replacer), true).unwrap().0 == text_replaced(
            src.0,
            literal_matches(src.0, pattern),
            replacer,
        ),
{
    let s = src.0;
    let lm = literal_matches(s, pattern);
    let lr = literal_replacements(s, pattern, replacer);
    let n = lm.len() as int;
    assert(lr.take(n) =~= lr);
    assert(lm.take(n) =~= lm);
    if splice_fold(src, lr.take(n), true) is None {
        lemma_fold_none_after(src, lr, true, n);
    }
    lemma_replace_prefix(src, pattern, replacer, n);
    lemma_split_facts(s, pattern, n);
    let occ = occurrences(s, pattern, 0);
    let e = occ_end(occ, pattern.len() as int, n);
    lemma_slice_between(s, e, s.len() as int);
    lemma_spans_slice_text(
        src,
        Bounds { start: Bound::Included(prev_end(lm, n)), end: Bound::Unbounded },
        s.subrange(e, s.len() as int),
    );
}

/// Law: replacing a pattern that occurs nowhere in a styled text, by a
/// text or by a styled text, keeps its text as it is; and with no matches, a
/// regex replacement keeps it too.
pub proof fn law_replace_absent_styled<T: StyleValue>(
    src: (Seq<char>, Seq<(usize, T)>),
    pattern: Seq<char>,
    replacer: Seq<char>,
    styled: (Seq<char>, Seq<(usize, T)>),
)
    requires
        forall|i: int| !occurs_at(src.0, pattern, i),
    ensures
        spliced(src, literal_replacements(src.0, pattern, replacer), true) matches Some(v) && v.0 == src.0,
        styled_replaced(src, literal_matches(src.0, pattern), styled) matches Some(v) && v.0 == src.0,
        styled_match_replaced(src, Seq::empty()) matches Some(v) && v.0 == src.0,
{
    lemma_next_occurrence(src.0, pattern, 0);
    assert(literal_matches(src.0, pattern) =~= Seq::<(usize, usize)>::empty());
    assert(literal_replacements(src.0, pattern, replacer) =~= Seq::<(usize, usize, Seq<char>)>::empty());
    lemma_slice_whole(src.0);
    assert(Seq::<char>::empty() + src.0 =~= src.0);
}

/// Where two byte offsets of a text fall at characters, the earlier offset
/// falls at the earlier character.
proof fn lemma_char_index_order(s: Seq<char>, x: int, y: int)
    requires
        x <= y,
        char_index(s, x) is Some,
        char_index(s, y) is Some,
    ensures
        char_index(s, x).unwrap() <= char_index(s, y).unwrap(),
{
    lemma_char_index_range(s, x);
    lemma_char_index_range(s, y);
    let a = char_index(s, x).unwrap();
    let b = char_index(s, y).unwrap();
    if b < a {
        lemma_byte_len_mono(s, b, a);
    }
}

/// The text between two character boundaries in order slices, and so does
/// the text from a boundary on.
proof fn lemma_slice_ordered(s: Seq<char>, x: usize, y: usize)
    requires
        x <= y,
        char_index(s, x as int) is Some,
        char_index(s, y as int) is Some,
    ensures
        str_slice(s, span_of(x, y)) is Some,
        str_slice(s, Bounds { start: Bound::Included(x), end: Bound::Unbounded }) is Some,
{
    lemma_char_index_order(s, x as int, y as int);
    lemma_char_index_range(s, x as int);
    let a = char_index(s, x as int).unwrap();
    lemma_byte_len_prefix(s, a);
    assert(s.take(s.len() as int) =~= s);
    lemma_char_index(s, byte_len(s) as int, s.len() as int);
    lemma_char_index_order(s, x as int, byte_len(s) as int);
}

/// Offset zero is a character boundary of every text.
proof fn lemma_zero_boundary(s: Seq<char>)
    ensures
        char_index(s, 0) == Some(0int),
{
    assert(s.take(0) =~= Seq::<char>::empty());
    lemma_char_index(s, 0, 0);
}

/// Applying the first `k` of some in-order replacements to a styled text
/// builds the text that applying them to its plain text builds, and goes on
/// from the end of the last one.
proof fn lemma_ordered_prefix<T: StyleValue>(
    src: (Seq<char>, Seq<(usize, T)>),
    ms: Seq<(usize, usize, Seq<char>)>,
    k: int,
)
    requires
        ordered_within(src.0, ms),
        0 <= k <= ms.len(),
        splice_fold(src, ms.take(k), false) is Some,
    ensures
        ({
            let (res, last) = splice_fold(src, ms.take(k), false).unwrap();
            let (acc, tlast) = text_match_fold(src.0, ms.take(k));
            res.0 == acc && last == tlast && last == (if k == 0 {
                0
            } else {
                ms[k - 1].1
            })
        }),
    decreases k,
{
    if k == 0 {
        assert(ms.take(0) =~= Seq::<(usize, usize, Seq<char>)>::empty());
    } else {
        let j = k - 1;
        assert(ms.take(k).drop_last() =~= ms.take(j));
        assert(ms.take(k).last() == ms[j]);
        if splice_fold(src, ms.take(j), false) is None {
            assert(splice_fold(src, ms.take(k), false) is None);
        }
        lemma_ordered_prefix(src, ms, j);
        let last = splice_fold(src, ms.take(j), false).unwrap().1;
        let m = ms[j];
        lemma_zero_boundary(src.0);
        if j > 0 {
            assert(ms[j - 1].1 <= ms[j].0);
        }
        lemma_slice_ordered(src.0, last, m.0);
        lemma_slice_ordered(src.0, m.0, m.1);
        let t1 = str_slice(src.0, span_of(last, m.0)).unwrap();
        let t2 = str_slice(src.0, span_of(m.0, m.1)).unwrap();
        lemma_spans_slice_text(src, span_of(last, m.0), t1);
        lemma_spans_slice_text(src, span_of(m.0, m.1), t2);
    }
}

/// Law: replacing in-order, non-overlapping byte ranges at character
/// boundaries of a styled text (as the matches of a regular expression
/// are), where no offset overflows, gives the text that replacing them in
/// its plain text gives.
pub proof fn law_ordered_replace_text<T: StyleValue>(
    src: (Seq<char>, Seq<(usize, T)>),
    ms: Seq<(usize, usize, Seq<char>)>,
)
    requires
        ordered_within(src.0, ms),
        spliced(src, ms, false) is Some,
    ensures
        spliced(src, ms, false).unwrap().0 == text_match_replaced(src.0, ms),
{
    let n = ms.len() as int;
    assert(ms.take(n) =~= ms);
    lemma_ordered_prefix(src, ms, n);
    let last = splice_fold(src, ms, false).unwrap().1;
    lemma_zero_boundary(src.0);
    lemma_slice_ordered(src.0, last, last);
    let tail = Bounds { start: Bound::Included(last), end: Bound::Unbounded };
    let t = str_slice(src.0, tail).unwrap();
    lemma_spans_slice_text(src, tail, t);
}


/// Whether byte ranges come in order, do not overlap, and start and end at
/// character boundaries of the text.
pub open spec fn ordered_ranges(text: Seq<char>, ms: Seq<(usize, usize)>) -> bool {
    &&& forall|i: int|
        0 <= i < ms.len() ==> (#[trigger] ms[i]).0 <= ms[i].1 && char_index(text, ms[i].0 as int) is Some
            && char_index(text, ms[i].1 as int) is Some
    &&& forall|i: int| 0 < i < ms.len() ==> ms[i - 1].1 <= (#[trigger] ms[i]).0
}

/// The occurrences of a pattern in a text come in order, do not overlap,
/// and start and end at character boundaries.
pub proof fn lemma_literal_ordered(s: Seq<char>, pattern: Seq<char>)
    requires
        byte_len(s) <= usize::MAX,
    ensures
        ordered_ranges(s, literal_matches(s, pattern)),
{
    let ms = literal_matches(s, pattern);
    let occ = occurrences(s, pattern, 0);
    let pl = pattern.len() as int;
    assert forall|i: int| 0 <= i < ms.len() implies (#[trigger] ms[i]).0 <= ms[i].1 && char_index(
        s,
        ms[i].0 as int,
    ) is Some && char_index(s, ms[i].1 as int) is Some by {
        lemma_split_facts(s, pattern, i);
        lemma_byte_len_mono(s, occ[i], occ[i] + pl);
        lemma_byte_len_prefix(s, occ[i] + pl);
        lemma_char_index(s, byte_len(s.take(occ[i])) as int, occ[i]);
        lemma_char_index(s, byte_len(s.take(occ[i] + pl)) as int, occ[i] + pl);
    }
    assert forall|i: int| 0 < i < ms.len() implies ms[i - 1].1 <= (#[trigger] ms[i]).0 by {
        lemma_split_facts(s, pattern, i);
        lemma_byte_len_mono(s, occ_end(occ, pl, i), occ[i]);
        lemma_byte_len_prefix(s, occ[i]);
    }
}

/// Replacing the first `k` of some in-order ranges of a styled text by a
/// styled text builds, where no offset overflows, the text that replacing
/// them in the plain text by the replacer's text builds.
proof fn lemma_styled_prefix<T: StyleValue>(
    src: (Seq<char>, Seq<(usize, T)>),
    ms: Seq<(usize, usize)>,
    replacer: (Seq<char>, Seq<(usize, T)>),
    k: int,
)
    requires
        ordered_ranges(src.0, ms),
        0 <= k <= ms.len(),
    ensures
        ({
            let (acc, last) = styled_fold(src, ms.take(k), replacer);
            let (tacc, tlast) = text_replace_fold(src.0, ms.take(k), replacer.0);
            &&& last == tlast
            &&& last == prev_end(ms, k)
            &&& acc matches Some(a) ==> a.0 == tacc
        }),
    decreases k,
{
    if k == 0 {
        assert(ms.take(0) =~= Seq::<(usize, usize)>::empty());
    } else {
        let j = k - 1;
        assert(ms.take(k).drop_last() =~= ms.take(j));
        assert(ms.take(k).last() == ms[j]);
        lemma_styled_prefix(src, ms, replacer, j);
        let (acc, last) = styled_fold(src, ms.take(j), replacer);
        let tacc = text_replace_fold(src.0, ms.take(j), replacer.0).0;
        let m = ms[j];
        lemma_zero_boundary(src.0);
        if j > 0 {
            assert(ms[j - 1].1 <= ms[j].0);
        }
        lemma_slice_ordered(src.0, last, m.0);
        let t1 = str_slice(src.0, span_of(last, m.0)).unwrap();
        lemma_spans_slice_text(src, span_of(last, m.0), t1);
        if let Some(a) = acc {
            assert(a.0 + t1 + replacer.0 == tacc + t1 + replacer.0);
            if t1.len() == 0 {
                assert(a.0 + t1 =~= a.0);
            }
        }
    }
}

/// Law: literal replacement in a styled text by a styled text, where no
/// offset overflows, gives the text that replacing every occurrence of the
/// pattern in the plain text by the replacer's text gives: each character
/// outside the occurrences is kept once, in order.
pub proof fn law_styled_replace_text<T: StyleValue>(
    src: (Seq<char>, Seq<(usize, T)>),
    pattern: Seq<char>,
    replacer: (Seq<char>, Seq<(usize, T)>),
)
    requires
        byte_len(src.0) <= usize::MAX,
        styled_replaced(src, literal_matches(src.0, pattern), replacer) is Some,
    ensures
        styled_replaced(src, literal_matches(src.0, pattern), replacer).unwrap().0 == text_replaced(
            src.0,
            literal_matches(src.0, pattern),
            replacer.0,
        ),
{
    let ms = literal_matches(src.0, pattern);
    lemma_literal_ordered(src.0, pattern);
    let n = ms.len() as int;
    assert(ms.take(n) =~= ms);
    lemma_styled_prefix(src, ms, replacer, n);
    let (acc, last) = styled_fold(src, ms, replacer);
    let tacc = text_replace_fold(src.0, ms, replacer.0).0;
    lemma_zero_boundary(src.0);
    if n > 0 {
        assert(ms[n - 1].0 <= ms[n - 1].1);
    }
    lemma_slice_ordered(src.0, last, last);
    let tail = Bounds { start: Bound::Included(last), end: Bound::Unbounded };
    let t = str_slice(src.0, tail).unwrap();
    lemma_spans_slice_text(src, tail, t);
    if t.len() == 0 {
        assert(tacc + t =~= tacc);
    }
}

/// The styled replacements with each replacement's text only.
pub open spec fn plain_replacements<T>(ms: Seq<(usize, usize, (Seq<char>, Seq<(usize, T)>))>) -> Seq<
    (usize, usize, Seq<char>),
> {
    ms.map_values(|m: (usize, usize, (Seq<char>, Seq<(usize, T)>))| (m.0, m.1, m.2.0))
}

/// Replacing the first `k` of some in-order ranges, each by its own styled
/// text, builds the text that replacing them in the plain text by those
/// texts builds.
proof fn lemma_styled_match_prefix<T: StyleValue>(
    src: (Seq<char>, Seq<(usize, T)>),
    ms: Seq<(usize, usize, (Seq<char>, Seq<(usize, T)>))>,
    k: int,
)
    requires
        ordered_within(src.0, plain_replacements(ms)),
        0 <= k <= ms.len(),
    ensures
        ({
            let (acc, last) = styled_match_fold(src, ms.take(k));
            let (tacc, tlast) = text_match_fold(src.0, plain_replacements(ms.take(k)));
            &&& last == tlast
            &&& last == (if k == 0 {
                0
            } else {
                ms[k - 1].1
            })
            &&& acc matches Some(a) ==> a.0 == tacc
        }),
    decreases k,
{
    let p = plain_replacements(ms);
    if k == 0 {
        assert(ms.take(0) =~= Seq::<(usize, usize, (Seq<char>, Seq<(usize, T)>))>::empty());
        assert(plain_replacements(ms.take(0)) =~= Seq::<(usize, usize, Seq<char>)>::empty());
    } else {
        let j = k - 1;
        assert(ms.take(k).drop_last() =~= ms.take(j));
        assert(ms.take(k).last() == ms[j]);
        assert(plain_replacements(ms.take(k)).drop_last() =~= plain_replacements(ms.take(j)));
        assert(plain_replacements(ms.take(k)).last() == p[j]);
        lemma_styled_match_prefix(src, ms, j);
        let last = styled_match_fold(src, ms.take(j)).1;
        let m = ms[j];
        assert(p[j] == (m.0, m.1, m.2.0));
        lemma_zero_boundary(src.0);
        if j > 0 {
            assert(p[j - 1].1 <= p[j].0);
            assert(p[j - 1] == (ms[j - 1].0, ms[j - 1].1, ms[j - 1].2.0));
        }
        assert(p[j].0 <= p[j].1);
        lemma_slice_ordered(src.0, last, m.0);
        lemma_slice_ordered(src.0, m.0, m.1);
        let t1 = str_slice(src.0, span_of(last, m.0)).unwrap();
        let t2 = str_slice(src.0, span_of(m.0, m.1)).unwrap();
        lemma_spans_slice_text(src, span_of(last, m.0), t1);
        lemma_spans_slice_text(src, span_of(m.0, m.1), t2);
    }
}

/// Law: replacing in-order, non-overlapping ranges at character boundaries
/// of a styled text (as the matches of a regular expression are), each by
/// its own styled text, gives, where no offset overflows, the text that
/// replacing them in the plain text by those texts gives: the source between
/// the ranges is kept once, in order.
pub proof fn law_styled_match_text<T: StyleValue>(
    src: (Seq<char>, Seq<(usize, T)>),
    ms: Seq<(usize, usize, (Seq<char>, Seq<(usize, T)>))>,
)
    requires
        ordered_within(src.0, plain_replacements(ms)),
        styled_match_replaced(src, ms) is Some,
    ensures
        styled_match_replaced(src, ms).unwrap().0 == text_match_replaced(src.0, plain_replacements(ms)),
{
    let n = ms.len() as int;
    assert(ms.take(n) =~= ms);
    lemma_styled_match_prefix(src, ms, n);
    let last = styled_match_fold(src, ms).1;
    lemma_zero_boundary(src.0);
    if n > 0 {
        let p = plain_replacements(ms);
        assert(p[n - 1] == (ms[n - 1].0, ms[n - 1].1, ms[n - 1].2.0));
    }
    lemma_slice_ordered(src.0, last, last);
    let tail = Bounds { start: Bound::Included(last), end: Bound::Unbounded };
    let t = str_slice(src.0, tail).unwrap();
    lemma_spans_slice_text(src, tail, t);
}


/// Whether each replacement's text is the text of the range it replaces.
pub open spec fn replaces_by_itself(text: Seq<char>, ms: Seq<(usize, usize, Seq<char>)>) -> bool {
    forall|i: int| 0 <= i < ms.len() ==> str_slice(text, span_of((#[trigger] ms[i]).0, ms[i].1)) == Some(ms[i].2)
}

/// Replacing the first `k` in-order ranges each by its own text builds the
/// text up to the end of the `k`th range.
proof fn lemma_match_identity_prefix(s: Seq<char>, ms: Seq<(usize, usize, Seq<char>)>, k: int)
    requires
        ordered_within(s, ms),
        replaces_by_itself(s, ms),
        0 <= k <= ms.len(),
    ensures
        ({
            let (acc, last) = text_match_fold(s, ms.take(k));
            &&& last == (if k == 0 {
                0
            } else {
                ms[k - 1].1
            })
            &&& char_index(s, last as int) is Some
            &&& acc == s.take(char_index(s, last as int).unwrap())
        }),
    decreases k,
{
    lemma_zero_boundary(s);
    if k == 0 {
        assert(ms.take(0) =~= Seq::<(usize, usize, Seq<char>)>::empty());
        assert(s.take(0) =~= Seq::<char>::empty());
    } else {
        let j = k - 1;
        assert(ms.take(k).drop_last() =~= ms.take(j));
        assert(ms.take(k).last() == ms[j]);
        lemma_match_identity_prefix(s, ms, j);
        let last = text_match_fold(s, ms.take(j)).1;
        let m = ms[j];
        if j > 0 {
            assert(ms[j - 1].1 <= ms[j].0);
        }
        lemma_char_index_order(s, last as int, m.0 as int);
        lemma_char_index_order(s, m.0 as int, m.1 as int);
        lemma_char_index_range(s, last as int);
        lemma_char_index_range(s, m.0 as int);
        lemma_char_index_range(s, m.1 as int);
        let a = char_index(s, last as int).unwrap();
        let b = char_index(s, m.0 as int).unwrap();
        let c = char_index(s, m.1 as int).unwrap();
        assert(s.take(a) + s.subrange(a, b) + s.subrange(b, c) =~= s.take(c));
    }
}

/// Law: replacing in-order ranges at character boundaries of a text each by
/// the text it covers gives the text back: the text between the ranges is
/// kept once each, in order.
pub proof fn law_match_identity(s: Seq<char>, ms: Seq<(usize, usize, Seq<char>)>)
    requires
        ordered_within(s, ms),
        replaces_by_itself(s, ms),
    ensures
        text_match_replaced(s, ms) == s,
{
    let n = ms.len() as int;
    assert(ms.take(n) =~= ms);
    lemma_match_identity_prefix(s, ms, n);
    let last = text_match_fold(s, ms).1;
    lemma_char_index_range(s, last as int);
    lemma_slice_ordered(s, last, last);
    let a = char_index(s, last as int).unwrap();
    assert(s.take(s.len() as int) =~= s);
    lemma_char_index(s, byte_len(s) as int, s.len() as int);
    assert(s.take(a) + s.subrange(a, s.len() as int) =~= s);
}

} // verus!
