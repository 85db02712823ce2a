//! Styles of text, and painters that apply them as markup.
use vstd::prelude::*;

verus! {

/// A value that styles a run of text: it can be compared with another
/// style, copied, and has a plain default.
pub trait StyleValue: Sized {
    /// Whether two styles count as the same when adjacent runs are merged;
    /// by default, whether they are equal.
    open spec fn same_as(&self, other: &Self) -> bool {
        *self == *other
    }

    /// Whether this is the plain style, the one `plain` gives to text that
    /// no run covers: by default one fixed style of the type, which an
    /// implementation names by overriding this.
    open spec fn is_plain(&self) -> bool {
        *self == vstd::pervasive::arbitrary::<Self>()
    }

    /// Compares two styles.
    fn same(&self, other: &Self) -> (r: bool)
        ensures
            r == self.same_as(other),
    ;

    /// Copies a style.
    fn duplicate(&self) -> (r: Self)
        ensures
            r == *self,
    ;

    /// A plain style.
    fn plain() -> (r: Self)
        ensures
            r.is_plain(),
    ;
}

/// Provides functionality to display strings with markup.
pub trait Painter: StyleValue {
    /// Whether `spec_paint` and `spec_paint_many` describe what `paint` and
    /// `paint_many` return; a painter that leaves this out promises nothing.
    open spec fn paint_specified() -> bool {
        false
    }

    /// What `paint` returns for a text.
    open spec fn spec_paint(&self, target: Seq<char>) -> Seq<char> {
        target
    }

    /// What `paint_many` returns for a sequence of (style, text) groups.
    open spec fn spec_paint_many(groups: Seq<(Self, Seq<char>)>) -> Seq<char> {
        Seq::empty()
    }

    /// Applies markup to a given string.
    fn paint(&self, target: &str) -> (r: String)
        ensures
            Self::paint_specified() ==> r@ == self.spec_paint(target@),
    ;

    /// Applies markup to each (style, text) group and joins the results,
    /// merging adjacent groups where the markup allows it.
    fn paint_many(groups: &Vec<(&Self, &str)>) -> (r: String)
        ensures
            Self::paint_specified() ==> r@ == Self::spec_paint_many(painter_groups(groups@)),
    ;
}

/// The (style, text) groups as values.
pub open spec fn painter_groups<T>(groups: Seq<(&T, &str)>) -> Seq<(T, Seq<char>)> {
    groups.map_values(|g: (&T, &str)| (*g.0, g.1@))
}

impl StyleValue for usize {
    open spec fn is_plain(&self) -> bool {
        *self == 0
    }

    fn same(&self, other: &Self) -> (r: bool) {
        *self == *other
    }

    fn duplicate(&self) -> (r: Self) {
        *self
    }

    /// The plain index is zero.
    fn plain() -> (r: Self)
        ensures
            r == 0,
    {
        0
    }
}

} // verus!
