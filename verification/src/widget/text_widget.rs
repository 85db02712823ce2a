//! A text widget: a text and the strategy that truncates it.
use vstd::prelude::*;
use crate::text::painter::StyleValue;
use crate::text::spans::Spans;
use crate::text::width::{HasWidth, Width};
use crate::widget::truncatable::{Truncateable, TruncationStrategy};

verus! {

/// Widgets that can be truncated to fit in a provided width.
pub trait Fitable<T: StyleValue>: HasWidth {
    /// Whether the widget is well formed.
    spec fn fit_ok(&self) -> bool;

    /// The styled text that truncating the widget to a width gives.
    spec fn spec_fit(&self, width: usize) -> Option<(Seq<char>, Seq<(usize, T)>)>;

    /// Truncates the widget to fit in a given width.
    fn truncate(&self, width: usize) -> (r: Option<Spans<T>>)
        requires
            self.fit_ok(),
        ensures
            match self.spec_fit(width) {
                Some(v) => r matches Some(x) && x@ == v && x.wf(),
                None => r is None,
            },
    ;
}

/// A widget that can be truncated.
pub struct TextWidget<'a, X, U> {
    text: &'a X,
    truncation_strategy: &'a U,
}

impl<'a, X, U> TextWidget<'a, X, U> {
    /// The text of the widget.
    pub closed spec fn text(&self) -> X {
        *self.text
    }

    /// The strategy that truncates the text.
    pub closed spec fn strategy(&self) -> U {
        *self.truncation_strategy
    }

    /// A widget of the text, truncated by the strategy.
    pub fn new(text: &'a X, truncation_strategy: &'a U) -> (r: Self)
        ensures
            r.text() == *text,
            r.strategy() == *truncation_strategy,
    {
        TextWidget { text, truncation_strategy }
    }
}

impl<'a, T: StyleValue, X: Truncateable<T>, U: TruncationStrategy<T, X>> Fitable<T> for TextWidget<'a, X, U> {
    open spec fn fit_ok(&self) -> bool {
        self.strategy().strategy_ok() && self.text().truncatable()
    }

    open spec fn spec_fit(&self, width: usize) -> Option<(Seq<char>, Seq<(usize, T)>)> {
        self.strategy().spec_truncate(self.text(), width)
    }

    /// The text truncated by the widget's strategy.
    fn truncate(&self, width: usize) -> (r: Option<Spans<T>>) {
        self.truncation_strategy.truncate(self.text, width)
    }
}

impl<'a, X: HasWidth, U> HasWidth for TextWidget<'a, X, U> {
    open spec fn spec_width(&self) -> Width {
        self.text().spec_width()
    }

    /// The width of the widget's text.
    fn width(&self) -> (r: Width) {
        self.text.width()
    }
}

} // verus!
