//! The primary text object, a sequence of styled spans.
use vstd::prelude::*;
use crate::outside::{display_width, text_width};
use crate::text::offsets::{
    byte_len, lemma_byte_len_concat, lemma_char_index, lemma_slice_whole, slice_str, slicing_range, str_len, str_slice,
};
use crate::text::painter::{painter_groups, Painter, StyleValue};
use crate::text::raw_text::RawText;
use crate::text::pushable::Pushable;
use crate::text::sliceable::{Bound, Bounds, Sliceable};
use crate::text::width::{BoundedWidth, HasWidth, Width};
use crate::text::width_sliceable::{width_byte_range, width_slice_bounds, WidthSliceable};

pub mod dedup;
pub mod search_tree;
pub mod replace;
pub mod span;
pub use search_tree::{SearchTree, ShiftError};
pub use span::Span;
use search_tree::{
    keys_at_most, lemma_dedup_bounded, lemma_trim_bounded, seq_dedup, seq_insert,
    seq_slice, seq_trim, shift_up_into, sorted_keys,
};

verus! {

/// A text and the styles applied to it: each run starts at a byte offset,
/// and its style applies up to the next run. Styles do not cascade.
#[derive(Clone, Debug, PartialEq)]
pub struct Spans<T> {
    content: String,
    /// Byte-indexed map of spans
    spans: SearchTree<T>,
}

impl<T> View for Spans<T> {
    type V = (Seq<char>, Seq<(usize, T)>);

    /// The text, and the runs of styles keyed by their starting byte offsets.
    closed spec fn view(&self) -> (Seq<char>, Seq<(usize, T)>) {
        (self.content@, self.spans@)
    }
}

/// The highest key that runs of a text keep: the offset of its last byte,
/// or zero for an empty text.
pub open spec fn trim_key(text: Seq<char>) -> usize {
    if byte_len(text) == 0 {
        0
    } else {
        (byte_len(text) - 1) as usize
    }
}

/// Whether the runs can be appended after a text without a key overflowing.
pub open spec fn can_shift<T>(text: Seq<char>, runs: Seq<(usize, T)>) -> bool {
    forall|i: int| 0 <= i < runs.len() ==> (#[trigger] runs[i]).0 + byte_len(text) <= usize::MAX
}

/// One styled text pushed after another: the texts joined, the second's
/// runs moved past the first text, repeated styles dropped, and runs past
/// the last byte dropped.
pub open spec fn spans_push<T: StyleValue>(
    a: (Seq<char>, Seq<(usize, T)>),
    b: (Seq<char>, Seq<(usize, T)>),
) -> (Seq<char>, Seq<(usize, T)>) {
    (
        a.0 + b.0,
        seq_trim(seq_dedup(shift_up_into(a.1, b.1, byte_len(a.0) as usize)), trim_key(a.0 + b.0)),
    )
}

/// A span pushed after a styled text: its style starts a run at the end of
/// the text, repeated styles are dropped, and runs past the last byte are
/// dropped.
pub open spec fn spans_push_span<T: StyleValue>(
    a: (Seq<char>, Seq<(usize, T)>),
    span: (T, Seq<char>),
) -> (Seq<char>, Seq<(usize, T)>) {
    (
        a.0 + span.1,
        seq_trim(seq_dedup(seq_insert(a.1, byte_len(a.0) as usize, span.0)), trim_key(a.0 + span.1)),
    )
}

/// A byte slice of a styled text: the text sliced like `str::get`, and the
/// runs sliced by the tree's rules (none where there are no runs).
pub open spec fn spans_slice<T>(a: (Seq<char>, Seq<(usize, T)>), range: Bounds) -> Option<
    (Seq<char>, Seq<(usize, T)>),
> {
    match str_slice(a.0, range) {
        None => None,
        Some(t) => if a.1.len() == 0 {
            Some((t, Seq::empty()))
        } else {
            match seq_slice(a.1, range) {
                Some(r) => Some((t, r)),
                None => None,
            }
        },
    }
}

/// The runs with a plain run put first where no run starts at offset zero.
pub open spec fn with_origin<T>(runs: Seq<(usize, T)>, plain: T) -> Seq<(usize, T)> {
    if runs.len() > 0 && runs[0].0 == 0 {
        runs
    } else {
        seq![(0usize, plain)] + runs
    }
}

/// Where the run at index `i` ends: where the next run starts, or at the end
/// of the text.
pub open spec fn run_end<T>(text: Seq<char>, runs: Seq<(usize, T)>, i: int) -> usize {
    if i + 1 < runs.len() {
        runs[i + 1].0
    } else {
        byte_len(text) as usize
    }
}

/// The spans of the first `n` runs: each run's style with the text from its
/// start to its end, left out where that is not a valid slice of the text.
pub open spec fn run_pieces<T>(text: Seq<char>, runs: Seq<(usize, T)>, n: int) -> Seq<(T, Seq<char>)>
    decreases n,
{
    if n <= 0 {
        Seq::empty()
    } else {
        let rest = run_pieces(text, runs, n - 1);
        match str_slice(
            text,
            Bounds { start: Bound::Included(runs[n - 1].0), end: Bound::Excluded(run_end(text, runs, n - 1)) },
        ) {
            Some(t) => rest.push((runs[n - 1].1, t)),
            None => rest,
        }
    }
}

/// The spans of a styled text, given the plain style for text before the
/// first run.
pub open spec fn spans_pieces<T>(a: (Seq<char>, Seq<(usize, T)>), plain: T) -> Seq<(T, Seq<char>)> {
    run_pieces(a.0, with_origin(a.1, plain), with_origin(a.1, plain).len() as int)
}

/// The style and text of each span.
pub open spec fn span_views<T>(spans: Seq<Span<T>>) -> Seq<(T, Seq<char>)> {
    spans.map_values(|s: Span<T>| s@)
}

/// The styled text built by pushing each (style, text) span in turn onto an
/// empty one.
pub open spec fn spans_from_pieces<T: StyleValue>(pieces: Seq<(T, Seq<char>)>) -> (
    Seq<char>,
    Seq<(usize, T)>,
)
    decreases pieces.len(),
{
    if pieces.len() == 0 {
        (Seq::empty(), Seq::empty())
    } else {
        spans_push_span(spans_from_pieces(pieces.drop_last()), pieces.last())
    }
}

/// The styled text built by pushing each styled text in turn onto an empty
/// one; none where a push would overflow an offset.
pub open spec fn spans_concat<T: StyleValue>(items: Seq<(Seq<char>, Seq<(usize, T)>)>) -> Option<
    (Seq<char>, Seq<(usize, T)>),
>
    decreases items.len(),
{
    if items.len() == 0 {
        Some((Seq::empty(), Seq::empty()))
    } else {
        match spans_concat(items.drop_last()) {
            Some(a) => if can_shift(a.0, items.last().1) {
                Some(spans_push(a, items.last()))
            } else {
                None
            },
            None => None,
        }
    }
}

/// The views of the styled texts.
pub open spec fn spans_views<T>(items: Seq<Spans<T>>) -> Seq<(Seq<char>, Seq<(usize, T)>)> {
    items.map_values(|s: Spans<T>| s@)
}

impl<T> RawText for Spans<T> {
    open spec fn raw_view(&self) -> Seq<char> {
        self@.0
    }

    fn raw(&self) -> (r: String) {
        self.content.clone()
    }

    fn raw_ref(&self) -> (r: &str) {
        self.content.as_str()
    }
}

impl<T> Default for Spans<T> {
    fn default() -> (r: Self)
        ensures
            r@ == (Seq::<char>::empty(), Seq::<(usize, T)>::empty()),
    {
        Spans { content: String::new(), spans: SearchTree::new() }
    }
}

impl<T> Spans<T> {
    /// Whether the runs are in strictly increasing order of their offsets,
    /// each of which is at most `isize::MAX`, as is any offset into a string.
    pub open spec fn wf(&self) -> bool {
        sorted_keys(self@.1) && keys_at_most(self@.1, isize::MAX as int)
    }

}

impl<T: StyleValue> Spans<T> {
    /// A text with one plain run from its start.
    pub fn from_str(other: &str) -> (r: Spans<T>)
        ensures
            r@.0 == other@,
            r@.1.len() == 1,
            r@.1[0].0 == 0,
            r@.1[0].1.is_plain(),
            r.wf(),
    {
        let mut spans: SearchTree<T> = SearchTree::new();
        spans.insert(0, T::plain());
        Spans { content: other.to_owned(), spans }
    }

    fn trim(&mut self)
        requires
            sorted_keys(old(self)@.1),
        ensures
            final(self)@ == (old(self)@.0, seq_trim(old(self)@.1, trim_key(old(self)@.0))),
            final(self).wf(),
    {
        let len = str_len(self.content.as_str());
        proof {
            lemma_trim_bounded(self@.1, trim_key(self@.0), 0);
        }
        self.spans.trim(if len == 0 { 0 } else { len - 1 });
    }

    /// A copy of the styled text.
    pub fn duplicate(&self) -> (r: Spans<T>)
        ensures
            r@ == self@,
    {
        Spans { content: self.content.clone(), spans: self.spans.duplicate() }
    }

    /// Replaces the text with another, keeping the runs.
    pub(crate) fn set_text(&mut self, text: String)
        ensures
            final(self)@ == (text@, old(self)@.1),
    {
        self.content = text;
    }


    /// The spans of text: one per run, reaching to the next run, with a plain
    /// span first where no run starts at the beginning.
    pub fn spans(&self) -> (r: Vec<Span<T>>)
        requires
            self.wf(),
        ensures
            exists|plain: T| plain.is_plain() && span_views(r@) == spans_pieces(self@, plain),
    {
        let entries = self.spans.iter();
        let p = T::plain();
        let ghost plain = p;
        let mut runs: Vec<(usize, T)> = Vec::new();
        let has_origin = entries.len() > 0 && entries[0].0 == 0;
        if !has_origin {
            runs.push((0, p));
        }
        let ghost head = runs@;
        let mut i: usize = 0;
        while i < entries.len()
            invariant
                i <= entries@.len(),
                entries@ == self@.1,
                runs@ == head + entries@.take(i as int),
            decreases entries.len() - i,
        {
            runs.push((entries[i].0, entries[i].1.duplicate()));
            proof {
                assert(head + entries@.take(i + 1) =~= (head + entries@.take(i as int)).push(
                    entries@[i as int],
                ));
            }
            i = i + 1;
        }
        proof {
            assert(entries@.take(entries@.len() as int) =~= entries@);
            if !has_origin {
                assert(head =~= seq![(0usize, plain)]);
            } else {
                assert(head =~= Seq::<(usize, T)>::empty());
                assert(runs@ =~= self@.1);
            }
            assert(runs@ == with_origin(self@.1, plain));
        }
        let len = str_len(self.content.as_str());
        let mut out: Vec<Span<T>> = Vec::new();
        let mut j: usize = 0;
        while j < runs.len()
            invariant
                j <= runs@.len(),
                len == byte_len(self@.0),
                runs@ == with_origin(self@.1, plain),
                span_views(out@) == run_pieces(self@.0, runs@, j as int),
            decreases runs.len() - j,
        {
            let end = if j + 1 < runs.len() {
                runs[j + 1].0
            } else {
                len
            };
            let range = Bounds { start: Bound::Included(runs[j].0), end: Bound::Excluded(end) };
            proof {
                assert(end == run_end(self@.0, runs@, j as int));
            }
            match slice_str(self.content.as_str(), range) {
                Some(piece) => {
                    out.push(Span::new(runs[j].1.duplicate(), piece.to_owned()));
                    proof {
                        assert(span_views(out@) =~= run_pieces(self@.0, runs@, j as int).push(
                            (runs@[j as int].1, piece@),
                        ));
                    }
                },
                None => {},
            }
            j = j + 1;
        }
        proof {
            assert(plain.is_plain());
        }
        out
    }

    /// Joins another styled text after this one.
    pub fn join(&self, other: &Spans<T>) -> (r: Spans<T>)
        requires
            self.wf(),
            other.wf(),
        ensures
            ({
                let joined = spans_push(spans_push((Seq::empty(), Seq::empty()), self@), other@);
                r@ == (joined.0, seq_trim(joined.1, trim_key(joined.0)))
            }),
            r.wf(),
    {
        let mut result: Spans<T> = Spans::default();
        proof {
            assert(byte_len(Seq::<char>::empty()) == 0);
        }
        result.push(self);
        result.push(other);
        result.trim();
        result
    }

    /// Joins a span after this styled text.
    pub fn join_span(&self, other: &Span<T>) -> (r: Spans<T>)
        requires
            self.wf(),
        ensures
            r@ == spans_push_span(spans_push((Seq::empty(), Seq::empty()), self@), other@),
            r.wf(),
    {
        let mut result: Spans<T> = Spans::default();
        result.push(self);
        result.push(other);
        result
    }

    /// Builds a styled text from spans pushed in turn, with repeated styles
    /// dropped.
    pub fn from_spans(items: &Vec<Span<T>>) -> (r: Spans<T>)
        ensures
            r@ == (spans_from_pieces(span_views(items@)).0, seq_dedup(spans_from_pieces(span_views(items@)).1)),
            r.wf(),
    {
        let mut result: Spans<T> = Spans::default();
        let mut i: usize = 0;
        while i < items.len()
            invariant
                i <= items@.len(),
                result.wf(),
                result@ == spans_from_pieces(span_views(items@.take(i as int))),
            decreases items.len() - i,
        {
            proof {
                assert(span_views(items@.take(i + 1)).drop_last() =~= span_views(items@.take(i as int)));
            }
            result.push(&items[i]);
            i = i + 1;
        }
        proof {
            assert(items@.take(items@.len() as int) =~= items@);
            lemma_dedup_bounded(result@.1, isize::MAX as int);
        }
        result.spans.dedup();
        result
    }

    /// Builds a styled text from styled texts pushed in turn, with repeated
    /// styles dropped.
    pub fn concat(items: &Vec<Spans<T>>) -> (r: Spans<T>)
        requires
            forall|i: int| 0 <= i < items.len() ==> (#[trigger] items[i]).wf(),
        ensures
            spans_concat(spans_views(items@)) is Some,
            ({
                let v = spans_concat(spans_views(items@)).unwrap();
                r@ == (v.0, seq_dedup(v.1))
            }),
            r.wf(),
    {
        let mut result: Spans<T> = Spans::default();
        let mut i: usize = 0;
        while i < items.len()
            invariant
                i <= items@.len(),
                result.wf(),
                forall|i: int| 0 <= i < items.len() ==> (#[trigger] items[i]).wf(),
                Some(result@) == spans_concat(spans_views(items@.take(i as int))),
            decreases items.len() - i,
        {
            proof {
                assert(spans_views(items@.take(i + 1)).drop_last() =~= spans_views(items@.take(i as int)));
            }
            result.push(&items[i]);
            i = i + 1;
        }
        proof {
            assert(items@.take(items@.len() as int) =~= items@);
            lemma_dedup_bounded(result@.1, isize::MAX as int);
        }
        result.spans.dedup();
        result
    }
}

impl<T: StyleValue> Sliceable for Spans<T> {
    open spec fn can_slice(&self, range: Bounds) -> bool {
        self.wf() && slicing_range(range)
    }

    /// Slices the text by bytes (like `str::get`), with the styles in force
    /// over the slice.
    fn slice(&self, range: Bounds) -> (r: Option<Spans<T>>)
        ensures
            match spans_slice(self@, range) {
                Some(v) => r matches Some(x) && x@ == v && x.wf(),
                None => r is None,
            },
    {
        let string = slice_str(self.content.as_str(), range);
        if self.spans.is_empty() {
            match string {
                Some(s) => {
                    return Some(Spans { content: s.to_owned(), spans: SearchTree::new() });
                },
                None => {},
            }
        }
        let spans = self.spans.slice(range);
        match (string, spans) {
            (Some(s), Some(t)) => Some(Spans { content: s.to_owned(), spans: t }),
            _ => None,
        }
    }
}

impl<T: StyleValue> WidthSliceable for Spans<T> {
    type Output = Spans<T>;

    open spec fn can_slice_width(&self, range: Bounds) -> bool {
        self.wf()
    }

    /// Slices the text by display columns: the graphemes whose columns all
    /// lie in the range, from the first that fits up to the first after it
    /// that does not; none where no grapheme fits.
    fn slice_width(&self, range: Bounds) -> (r: Option<Spans<T>>)
        ensures
            match width_byte_range(self@.0, range) {
                Some(b) => match spans_slice(self@, b) {
                    Some(v) => r matches Some(x) && x@ == v && x.wf(),
                    None => r is None,
                },
                None => r is None,
            },
    {
        match width_slice_bounds(self.content.as_str(), range) {
            Some(b) => self.slice(b),
            None => None,
        }
    }
}

impl<T> Pushable<str> for Spans<T> {
    /// Appends unstyled text, which takes the style of the last run.
    fn push(&mut self, other: &str)
        ensures
            final(self)@ == (old(self)@.0 + other@, old(self)@.1),
    {
        self.content.append(other);
    }
}

impl<T: StyleValue> Pushable<Span<T>> for Spans<T> {
    open spec fn can_push(&self, other: &Span<T>) -> bool {
        self.wf()
    }

    /// Pushes a span onto the end: its style starts a new run unless it is
    /// the same as the last one.
    fn push(&mut self, other: &Span<T>)
        ensures
            final(self)@ == spans_push_span(old(self)@, other@),
            final(self).wf(),
    {
        let len = str_len(self.content.as_str());
        self.spans.insert(len, other.style().duplicate());
        self.content.append(other.raw_ref());
        self.spans.dedup();
        self.trim();
    }
}

impl<T: StyleValue> Pushable<Spans<T>> for Spans<T> {
    open spec fn can_push(&self, other: &Spans<T>) -> bool {
        self.wf() && other.wf()
    }

    /// Pushes another styled text onto the end, keeping its styles.
    fn push(&mut self, other: &Spans<T>)
        ensures
            final(self)@ == spans_push(old(self)@, other@),
            final(self).wf(),
            can_shift(old(self)@.0, other@.1),
    {
        let len = str_len(self.content.as_str());
        proof {
            assert(can_shift(self@.0, other@.1)) by {
                assert forall|i: int| 0 <= i < other@.1.len() implies (#[trigger] other@.1[i]).0 + byte_len(
                    self@.0,
                ) <= usize::MAX by {
                    assert(other@.1[i].0 <= isize::MAX);
                }
            }
        }
        self.spans.copy_shifted_up(&other.spans, len);
        self.content.append(other.content.as_str());
        self.trim();
    }
}

impl<T: Painter> Spans<T> {
    /// The text with the markup of each span's style applied, as the painter
    /// joins the spans.
    pub fn display(&self) -> (r: String)
        requires
            self.wf(),
        ensures
            T::paint_specified() ==> exists|plain: T|
                plain.is_plain() && r@ == T::spec_paint_many(spans_pieces(self@, plain)),
    {
        let spans = self.spans();
        let mut groups: Vec<(&T, &str)> = Vec::new();
        let mut i: usize = 0;
        while i < spans.len()
            invariant
                i <= spans@.len(),
                painter_groups(groups@) == span_views(spans@.take(i as int)),
            decreases spans.len() - i,
        {
            let ghost before = groups@;
            let style = spans[i].style();
            let text = spans[i].raw_ref();
            groups.push((style, text));
            proof {
                assert(groups@ =~= before.push((style, text)));
                assert(painter_groups(groups@) =~= painter_groups(before).push((*style, text@)));
                assert(span_views(spans@.take(i + 1)) =~= span_views(spans@.take(i as int)).push(
                    spans@[i as int]@,
                ));
            }
            i = i + 1;
        }
        proof {
            assert(spans@.take(spans@.len() as int) =~= spans@);
        }
        T::paint_many(&groups)
    }
}

/// Law: pushing a styled text or a span onto a styled text appends its
/// text.
pub proof fn law_push_appends_text<T: StyleValue>(
    a: (Seq<char>, Seq<(usize, T)>),
    b: (Seq<char>, Seq<(usize, T)>),
    s: (T, Seq<char>),
)
    ensures
        spans_push(a, b).0 == a.0 + b.0,
        spans_push_span(a, s).0 == a.0 + s.1,
{
}

/// Law: slicing all of a styled text, or all of it from its first byte,
/// gives back its whole text.
pub proof fn law_slice_all<T>(a: (Seq<char>, Seq<(usize, T)>))
    ensures
        spans_slice(a, Bounds { start: Bound::Unbounded, end: Bound::Unbounded }) matches Some(v) && v.0 == a.0,
        spans_slice(a, Bounds { start: Bound::Included(0), end: Bound::Unbounded }) matches Some(v) && v.0
            == a.0,
{
    lemma_slice_whole(a.0);
}

/// Law: slicing a pushed styled text below the first part's bytes gives
/// back the first part's text, and from there on, the second part's text.
pub proof fn law_slice_after_push<T: StyleValue>(a: (Seq<char>, Seq<(usize, T)>), b: (Seq<char>, Seq<(usize, T)>))
    requires
        byte_len(a.0) <= usize::MAX,
    ensures
        spans_slice(spans_push(a, b), Bounds { start: Bound::Unbounded, end: Bound::Excluded(byte_len(a.0) as usize) })
            matches Some(v) && v.0 == a.0,
        spans_slice(spans_push(a, b), Bounds { start: Bound::Included(byte_len(a.0) as usize), end: Bound::Unbounded })
            matches Some(v) && v.0 == b.0,
{
    let c = a.0 + b.0;
    lemma_byte_len_concat(a.0, b.0);
    assert(c.take(a.0.len() as int) =~= a.0);
    assert(c.take(0) =~= Seq::<char>::empty());
    lemma_char_index(c, byte_len(a.0) as int, a.0.len() as int);
    lemma_char_index(c, 0, 0);
    assert(c.subrange(0, a.0.len() as int) =~= a.0);
    assert(c.subrange(a.0.len() as int, c.len() as int) =~= b.0);
}

impl<T> BoundedWidth for Spans<T> {
    open spec fn spec_bounded_width(&self) -> nat {
        display_width(self@.0)
    }

    fn bounded_width(&self) -> (r: usize) {
        text_width(self.content.as_str())
    }
}

impl<T> HasWidth for Spans<T> {
    open spec fn spec_width(&self) -> Width {
        Width::Bounded(display_width(self@.0) as usize)
    }

    fn width(&self) -> (r: Width) {
        Width::Bounded(self.bounded_width())
    }
}

} // verus!
