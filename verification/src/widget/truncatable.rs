//! Truncating styled text to a width, with a symbol where text was cut.
use vstd::prelude::*;
use crate::outside::{display_width, grapheme_clusters};
use crate::text::offsets::str_slice;
use crate::text::painter::StyleValue;
use crate::text::pushable::Pushable;
use crate::text::sliceable::{Bound, Bounds};
use crate::text::spans::{law_slice_all, spans_push, spans_push_span, spans_slice, Span, Spans};
use crate::text::width::{BoundedWidth, HasWidth, Width};
use crate::text::width_sliceable::{lemma_all_columns, width_byte_range, width_slice_bounds, WidthSliceable};
use crate::text::offsets::slice_str;
use crate::widget::repeat::{range_columns, repeated_columns, span_width_slice, Repeat};

verus! {

/// A styled text with another pushed on, where there is one.
pub open spec fn push_opt<T: StyleValue>(
    acc: (Seq<char>, Seq<(usize, T)>),
    o: Option<(Seq<char>, Seq<(usize, T)>)>,
) -> (Seq<char>, Seq<(usize, T)>) {
    match o {
        Some(v) => spans_push(acc, v),
        None => acc,
    }
}

/// The empty styled text.
pub open spec fn no_text<T>() -> (Seq<char>, Seq<(usize, T)>) {
    (Seq::empty(), Seq::empty())
}

/// All columns (`..`).
pub open spec fn all_columns() -> Bounds {
    Bounds { start: Bound::Unbounded, end: Bound::Unbounded }
}

/// The columns below `n` (`..n`).
pub open spec fn columns_below(n: int) -> Bounds {
    Bounds { start: Bound::Unbounded, end: Bound::Excluded(n as usize) }
}

/// The columns from `n` on (`n..`).
pub open spec fn columns_from(n: int) -> Bounds {
    Bounds { start: Bound::Included(n as usize), end: Bound::Unbounded }
}

/// `a - b`, or zero where that is negative.
pub open spec fn minus(a: int, b: int) -> int {
    if a < b {
        0
    } else {
        a - b
    }
}

/// What slicing a styled text by width gives.
pub open spec fn spans_width_slice<T>(a: (Seq<char>, Seq<(usize, T)>), range: Bounds) -> Option<
    (Seq<char>, Seq<(usize, T)>),
> {
    match width_byte_range(a.0, range) {
        Some(b) => spans_slice(a, b),
        None => None,
    }
}

/// Objects that have width and can be sliced on width into styled text are
/// truncateable.
pub trait Truncateable<T: StyleValue>: HasWidth {
    /// Whether the object can be sliced.
    spec fn truncatable(&self) -> bool;

    /// The styled text that slicing the object by width gives.
    spec fn width_slice_view(&self, range: Bounds) -> Option<(Seq<char>, Seq<(usize, T)>)>;

    /// Slices the object by width into a styled text.
    fn slice_width_text(&self, range: Bounds) -> (r: Option<Spans<T>>)
        requires
            self.truncatable(),
            range.start != Bound::Excluded(usize::MAX),
            range.end != Bound::Included(usize::MAX),
        ensures
            match self.width_slice_view(range) {
                Some(v) => r matches Some(x) && x@ == v && x.wf(),
                None => r is None,
            },
    ;
}

impl<T: StyleValue> Truncateable<T> for Spans<T> {
    open spec fn truncatable(&self) -> bool {
        self.wf()
    }

    open spec fn width_slice_view(&self, range: Bounds) -> Option<(Seq<char>, Seq<(usize, T)>)> {
        spans_width_slice(self@, range)
    }

    fn slice_width_text(&self, range: Bounds) -> (r: Option<Spans<T>>) {
        self.slice_width(range)
    }
}

impl<T: StyleValue> Truncateable<T> for Repeat<T> {
    open spec fn truncatable(&self) -> bool {
        true
    }

    open spec fn width_slice_view(&self, range: Bounds) -> Option<(Seq<char>, Seq<(usize, T)>)> {
        match range_columns(range) {
            None => None,
            Some(c) => if c == 0 || display_width(self@.1) == 0 {
                None
            } else {
                Some(repeated_columns(self@, range, display_width(self@.1)))
            },
        }
    }

    fn slice_width_text(&self, range: Bounds) -> (r: Option<Spans<T>>) {
        self.slice_width(range)
    }
}

/// What marks where text was cut: it has a width, and as much of it as
/// fits in the width being truncated to is pushed onto the truncated text.
pub trait TruncationSymbol<T: StyleValue>: BoundedWidth {
    /// Whether the symbol is well formed.
    spec fn symbol_ok(&self) -> bool;

    /// A styled text with the symbol's columns below `width` pushed on.
    spec fn pushed_onto(&self, acc: (Seq<char>, Seq<(usize, T)>), width: usize) -> (Seq<char>, Seq<(usize, T)>);

    /// Pushes the symbol's columns below `width` onto the target.
    fn push_symbol(&self, target: &mut Spans<T>, width: usize)
        requires
            old(target).wf(),
            self.symbol_ok(),
        ensures
            final(target)@ == self.pushed_onto(old(target)@, width),
            final(target).wf(),
    ;
}

impl<T: StyleValue> TruncationSymbol<T> for Spans<T> {
    open spec fn symbol_ok(&self) -> bool {
        self.wf()
    }

    open spec fn pushed_onto(&self, acc: (Seq<char>, Seq<(usize, T)>), width: usize) -> (Seq<char>, Seq<(usize, T)>) {
        push_opt(acc, spans_width_slice(self@, columns_below(width as int)))
    }

    fn push_symbol(&self, target: &mut Spans<T>, width: usize) {
        match self.slice_width(Bounds::up_to(width)) {
            Some(s) => target.push(&s),
            None => {},
        }
    }
}

impl<S: BoundedWidth> BoundedWidth for Option<S> {
    open spec fn spec_bounded_width(&self) -> nat {
        match self {
            Some(s) => s.spec_bounded_width(),
            None => 0,
        }
    }

    /// The symbol's width, or zero where there is none.
    fn bounded_width(&self) -> (r: usize) {
        match self {
            Some(s) => s.bounded_width(),
            None => 0,
        }
    }
}

impl<T: StyleValue, S: TruncationSymbol<T>> TruncationSymbol<T> for Option<S> {
    open spec fn symbol_ok(&self) -> bool {
        match self {
            Some(s) => s.symbol_ok(),
            None => true,
        }
    }

    open spec fn pushed_onto(&self, acc: (Seq<char>, Seq<(usize, T)>), width: usize) -> (Seq<char>, Seq<(usize, T)>) {
        match self {
            Some(s) => s.pushed_onto(acc, width),
            None => acc,
        }
    }

    fn push_symbol(&self, target: &mut Spans<T>, width: usize) {
        match self {
            Some(s) => s.push_symbol(target, width),
            None => {},
        }
    }
}

impl<T: StyleValue> TruncationSymbol<T> for Span<T> {
    open spec fn symbol_ok(&self) -> bool {
        true
    }

    open spec fn pushed_onto(&self, acc: (Seq<char>, Seq<(usize, T)>), width: usize) -> (Seq<char>, Seq<(usize, T)>) {
        match span_width_slice(self@, columns_below(width as int)) {
            Some(s) => spans_push_span(acc, s),
            None => acc,
        }
    }

    fn push_symbol(&self, target: &mut Spans<T>, width: usize) {
        match self.slice_width(Bounds::up_to(width)) {
            Some(s) => target.push(&s),
            None => {},
        }
    }
}

impl<'a, T: StyleValue> TruncationSymbol<T> for &'a str {
    open spec fn symbol_ok(&self) -> bool {
        true
    }

    open spec fn pushed_onto(&self, acc: (Seq<char>, Seq<(usize, T)>), width: usize) -> (Seq<char>, Seq<(usize, T)>) {
        match width_byte_range((*self)@, columns_below(width as int)) {
            Some(b) => match str_slice((*self)@, b) {
                Some(t) => (acc.0 + t, acc.1),
                None => acc,
            },
            None => acc,
        }
    }

    fn push_symbol(&self, target: &mut Spans<T>, width: usize) {
        match width_slice_bounds(*self, Bounds::up_to(width)) {
            Some(b) => match slice_str(*self, b) {
                Some(t) => target.push(t),
                None => {},
            },
            None => {},
        }
    }
}

/// Styles for simple truncation.
pub enum TruncationStyle<S> {
    /// Keeps the left text, truncates text on the right. The symbol is added
    /// where truncation occurs.
    Left(S),
    /// Keeps the right text, truncates text on the left. The symbol is added
    /// where truncation occurs.
    Right(S),
    /// Keeps the outside text, truncates text on the inside. The symbol is
    /// added where truncation occurs.
    Inner(S),
}

/// Functionality for truncating objects using some strategy.
pub trait TruncationStrategy<T: StyleValue, X: Truncateable<T>> {
    /// Whether the strategy is well formed.
    spec fn strategy_ok(&self) -> bool;

    /// The styled text that truncating the target to a width gives.
    spec fn spec_truncate(&self, target: X, width: usize) -> Option<(Seq<char>, Seq<(usize, T)>)>;

    /// Truncates the target to a width.
    fn truncate(&self, target: &X, width: usize) -> (r: Option<Spans<T>>)
        requires
            self.strategy_ok(),
            target.truncatable(),
        ensures
            match self.spec_truncate(*target, width) {
                Some(v) => r matches Some(x) && x@ == v && x.wf(),
                None => r is None,
            },
    ;
}

impl<T: StyleValue, X: Truncateable<T>, S: TruncationSymbol<T>> TruncationStrategy<T, X> for TruncationStyle<S> {
    open spec fn strategy_ok(&self) -> bool {
        match self {
            TruncationStyle::Left(s) => s.symbol_ok(),
            TruncationStyle::Right(s) => s.symbol_ok(),
            TruncationStyle::Inner(s) => s.symbol_ok(),
        }
    }

    /// None for no width. A finite text that fits is kept whole. Else the
    /// symbol's width is taken from the width first, and the symbol is cut
    /// to the width where it is wider: `Left` keeps the
    /// columns on the left and then the symbol; `Right` the symbol and then
    /// the columns on the right; `Inner` the left half (with the odd column),
    /// the symbol, and the right half. An endless text is cut the same way
    /// from its start, each part taken from its first columns.
    open spec fn spec_truncate(&self, target: X, width: usize) -> Option<(Seq<char>, Seq<(usize, T)>)> {
        if width == 0 {
            None
        } else {
            let e = no_text::<T>();
            match target.spec_width() {
                Width::Bounded(w) => if width >= w {
                    Some(push_opt(e, target.width_slice_view(all_columns())))
                } else {
                    match self {
                        TruncationStyle::Left(sym) => Some(
                            sym.pushed_onto(
                                push_opt(e, target.width_slice_view(columns_below(minus(width as int, sym.spec_bounded_width() as int)))),
                                width,
                            ),
                        ),
                        TruncationStyle::Right(sym) => Some(
                            push_opt(
                                sym.pushed_onto(e, width),
                                target.width_slice_view(
                                    columns_from(minus(w as int, minus(width as int, sym.spec_bounded_width() as int))),
                                ),
                            ),
                        ),
                        TruncationStyle::Inner(sym) => {
                            let tw = minus(width as int, sym.spec_bounded_width() as int);
                            Some(
                                push_opt(
                                    sym.pushed_onto(push_opt(e, target.width_slice_view(columns_below(tw / 2 + tw % 2))), width),
                                    target.width_slice_view(columns_from(minus(w as int, tw / 2))),
                                ),
                            )
                        },
                    }
                },
                Width::Unbounded => match self {
                    TruncationStyle::Left(sym) => Some(
                        sym.pushed_onto(
                            push_opt(e, target.width_slice_view(columns_below(minus(width as int, sym.spec_bounded_width() as int)))),
                            width,
                        ),
                    ),
                    TruncationStyle::Right(sym) => Some(
                        push_opt(
                            sym.pushed_onto(e, width),
                            target.width_slice_view(columns_below(minus(width as int, sym.spec_bounded_width() as int))),
                        ),
                    ),
                    TruncationStyle::Inner(sym) => {
                        let tw = minus(width as int, sym.spec_bounded_width() as int);
                        Some(
                            push_opt(
                                sym.pushed_onto(push_opt(e, target.width_slice_view(columns_below(tw / 2 + tw % 2))), width),
                                target.width_slice_view(columns_below(tw / 2)),
                            ),
                        )
                    },
                },
            }
        }
    }

    fn truncate(&self, target: &X, width: usize) -> (r: Option<Spans<T>>) {
        if width == 0 {
            return None;
        }
        let mut result: Spans<T> = Spans::default();
        match target.width() {
            Width::Bounded(w) => {
                if width >= w {
                    push_text(&mut result, target.slice_width_text(Bounds::full()));
                    return Some(result);
                }
                match self {
                    TruncationStyle::Left(sym) => {
                        let keep = width.saturating_sub(sym.bounded_width());
                        push_text(&mut result, target.slice_width_text(Bounds::up_to(keep)));
                        sym.push_symbol(&mut result, width);
                    },
                    TruncationStyle::Right(sym) => {
                        sym.push_symbol(&mut result, width);
                        let keep = width.saturating_sub(sym.bounded_width());
                        push_text(&mut result, target.slice_width_text(Bounds::starting_at(w.saturating_sub(keep))));
                    },
                    TruncationStyle::Inner(sym) => {
                        let inner_width = sym.bounded_width();
                        let target_width = width.saturating_sub(inner_width);
                        let left_width = target_width / 2 + target_width % 2;
                        let right_width = target_width / 2;
                        let left_slice = target.slice_width_text(Bounds::up_to(left_width));
                        let right_slice = target.slice_width_text(Bounds::starting_at(w.saturating_sub(right_width)));
                        push_text(&mut result, left_slice);
                        sym.push_symbol(&mut result, width);
                        push_text(&mut result, right_slice);
                    },
                }
            },
            Width::Unbounded => {
                match self {
                    TruncationStyle::Left(sym) => {
                        let keep = width.saturating_sub(sym.bounded_width());
                        push_text(&mut result, target.slice_width_text(Bounds::up_to(keep)));
                        sym.push_symbol(&mut result, width);
                    },
                    TruncationStyle::Right(sym) => {
                        sym.push_symbol(&mut result, width);
                        let keep = width.saturating_sub(sym.bounded_width());
                        push_text(&mut result, target.slice_width_text(Bounds::up_to(keep)));
                    },
                    TruncationStyle::Inner(sym) => {
                        let inner_width = sym.bounded_width();
                        let target_width = width.saturating_sub(inner_width);
                        let left_width = target_width / 2 + target_width % 2;
                        let right_width = target_width / 2;
                        let left_slice = target.slice_width_text(Bounds::up_to(left_width));
                        let right_slice = target.slice_width_text(Bounds::up_to(right_width));
                        push_text(&mut result, left_slice);
                        sym.push_symbol(&mut result, width);
                        push_text(&mut result, right_slice);
                    },
                }
            },
        }
        Some(result)
    }
}

/// The smaller of two numbers.
pub open spec fn min_int(a: int, b: int) -> int {
    if a < b {
        a
    } else {
        b
    }
}

/// The `k` columns a right part takes: the last `k` of a finite target, or
/// the first `k` of an endless one.
pub open spec fn right_columns(w: Width, k: int) -> Bounds {
    match w {
        Width::Bounded(b) => columns_from(b - k),
        Width::Unbounded => columns_below(k),
    }
}

/// The truncated text laid out as the target's columns in `left`, then the
/// symbol's columns below `width`.
pub open spec fn left_layout<T: StyleValue, X: Truncateable<T>, S: TruncationSymbol<T>>(
    sym: S,
    target: X,
    width: usize,
    left: Bounds,
) -> (Seq<char>, Seq<(usize, T)>) {
    sym.pushed_onto(push_opt(no_text(), target.width_slice_view(left)), width)
}

/// The truncated text laid out as the symbol's columns below `width`, then
/// the target's columns in `right`.
pub open spec fn right_layout<T: StyleValue, X: Truncateable<T>, S: TruncationSymbol<T>>(
    sym: S,
    target: X,
    width: usize,
    right: Bounds,
) -> (Seq<char>, Seq<(usize, T)>) {
    push_opt(sym.pushed_onto(no_text(), width), target.width_slice_view(right))
}

/// The truncated text laid out as the target's columns in `left`, the
/// symbol's columns below `width`, and the target's columns in `right`.
pub open spec fn inner_layout<T: StyleValue, X: Truncateable<T>, S: TruncationSymbol<T>>(
    sym: S,
    target: X,
    width: usize,
    left: Bounds,
    right: Bounds,
) -> (Seq<char>, Seq<(usize, T)>) {
    push_opt(sym.pushed_onto(push_opt(no_text(), target.width_slice_view(left)), width), target.width_slice_view(right))
}

/// Law: truncating a target to a width `width > 0` asks for no more columns
/// than the width. A finite target that fits is kept whole. Otherwise the
/// columns taken from the target and the symbol's columns kept (its width,
/// cut to `width`) add up to exactly `width`: `Left` keeps the first `k`
/// columns of the target and then the symbol; `Right` the symbol and then
/// the last `k` columns of a finite target (the first `k` of an endless
/// one); `Inner` the first `l` columns, the symbol, and `r` more columns
/// taken as `Right` takes them, the left part being the same as the right
/// or one column wider.
pub proof fn law_truncation_width_budget<T: StyleValue, X: Truncateable<T>, S: TruncationSymbol<T>>(
    style: TruncationStyle<S>,
    target: X,
    width: usize,
)
    requires
        width > 0,
    ensures
        ({
            let out = TruncationStrategy::<T, X>::spec_truncate(&style, target, width);
            let tw = target.spec_width();
            if tw matches Width::Bounded(w) && width >= w {
                out == Some(push_opt(no_text(), target.width_slice_view(all_columns())))
            } else {
                match style {
                    TruncationStyle::Left(sym) => exists|k: int|
                        0 <= k && k + min_int(sym.spec_bounded_width() as int, width as int) == width && out == Some(
                            #[trigger] left_layout(sym, target, width, columns_below(k)),
                        ),
                    TruncationStyle::Right(sym) => exists|k: int|
                        0 <= k && k + min_int(sym.spec_bounded_width() as int, width as int) == width && out == Some(
                            #[trigger] right_layout(sym, target, width, right_columns(tw, k)),
                        ),
                    TruncationStyle::Inner(sym) => exists|l: int, r: int|
                        0 <= r <= l <= r + 1 && l + r + min_int(sym.spec_bounded_width() as int, width as int) == width
                            && out == Some(
                            #[trigger] inner_layout(sym, target, width, columns_below(l), right_columns(tw, r)),
                        ),
                }
            }
        }),
{
    let tw = target.spec_width();
    match style {
        TruncationStyle::Left(sym) => {
            let k = minus(width as int, sym.spec_bounded_width() as int);
            let _ = left_layout(sym, target, width, columns_below(k));
        },
        TruncationStyle::Right(sym) => {
            let k = minus(width as int, sym.spec_bounded_width() as int);
            let _ = right_layout(sym, target, width, right_columns(tw, k));
        },
        TruncationStyle::Inner(sym) => {
            let t = minus(width as int, sym.spec_bounded_width() as int);
            let _ = inner_layout(sym, target, width, columns_below(t / 2 + t % 2), right_columns(tw, t / 2));
        },
    }
}

/// Law: truncating to no width gives nothing; and a finite text that fits
/// in the width comes back whole, whatever the style of truncation.
pub proof fn law_fitting_text_kept<T: StyleValue, S: TruncationSymbol<T>>(
    style: TruncationStyle<S>,
    x: Spans<T>,
    width: usize,
)
    requires
        x.wf(),
        display_width(x@.0) <= width,
        grapheme_clusters(x@.0).len() > 0,
    ensures
        TruncationStrategy::<T, Spans<T>>::spec_truncate(&style, x, 0) is None,
        width > 0 ==> (TruncationStrategy::<T, Spans<T>>::spec_truncate(&style, x, width) matches Some(v)
            && v.0 == x@.0),
{
    lemma_all_columns(x@.0);
    law_slice_all(x@);
    assert(Seq::<char>::empty() + x@.0 =~= x@.0);
}

/// Pushes the styled text onto the target, where there is one.
fn push_text<T: StyleValue>(target: &mut Spans<T>, text: Option<Spans<T>>)
    requires
        old(target).wf(),
        text matches Some(x) ==> x.wf(),
    ensures
        final(target)@ == push_opt(
            old(target)@,
            match text {
                Some(x) => Some(x@),
                None => None,
            },
        ),
        final(target).wf(),
{
    match text {
        Some(x) => target.push(&x),
        None => {},
    }
}

} // verus!
