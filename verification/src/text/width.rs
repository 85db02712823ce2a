//! The width of text objects, which may be unbounded.
use vstd::prelude::*;
use crate::outside::{display_width, text_width};

verus! {

/// The unicode width of a text object, which may be infinite.
#[derive(Copy, Clone, Debug, PartialEq, Eq, Structural)]
pub enum Width {
    /// A finite width.
    Bounded(usize),
    /// An infinite width.
    Unbounded,
}

/// The sum of two widths: infinite if either is, otherwise the sum of the
/// two finite widths; none where that sum does not fit a `usize`.
pub open spec fn width_sum(a: Width, b: Width) -> Option<Width> {
    match (a, b) {
        (Width::Bounded(x), Width::Bounded(y)) => if x + y <= usize::MAX {
            Some(Width::Bounded((x + y) as usize))
        } else {
            None
        },
        _ => Some(Width::Unbounded),
    }
}

/// The widths added up from the left, starting from zero; none where a
/// partial sum does not fit a `usize`.
pub open spec fn width_total(widths: Seq<Width>) -> Option<Width>
    decreases widths.len(),
{
    if widths.len() == 0 {
        Some(Width::Bounded(0))
    } else {
        match width_total(widths.drop_last()) {
            Some(w) => width_sum(w, widths.last()),
            None => None,
        }
    }
}

impl core::ops::Add for Width {
    type Output = Width;

    /// Adds two widths: unbounded if either is, else the sum of the two.
    fn add(self, other: Width) -> (r: Width) {
        match (self, other) {
            (Width::Bounded(x), Width::Bounded(y)) => Width::Bounded(x + y),
            _ => Width::Unbounded,
        }
    }
}

impl vstd::std_specs::ops::AddSpecImpl for Width {
    open spec fn obeys_add_spec() -> bool {
        true
    }

    open spec fn add_req(self, rhs: Width) -> bool {
        width_sum(self, rhs) is Some
    }

    open spec fn add_spec(self, rhs: Width) -> Width {
        width_sum(self, rhs).unwrap()
    }
}

impl Width {
    /// Adds another width to this one.
    pub fn add_assign(&mut self, other: Width)
        requires
            width_sum(*old(self), other) is Some,
        ensures
            Some(*final(self)) == width_sum(*old(self), other),
    {
        *self = *self + other;
    }

    /// The sum of the widths.
    pub fn sum(widths: &Vec<Width>) -> (r: Width)
        requires
            width_total(widths@) is Some,
        ensures
            Some(r) == width_total(widths@),
    {
        let mut total = Width::Bounded(0);
        let mut i: usize = 0;
        while i < widths.len()
            invariant
                i <= widths.len(),
                width_total(widths@) is Some,
                Some(total) == width_total(widths@.take(i as int)),
            decreases widths.len() - i,
        {
            proof {
                assert(widths@.take(i + 1).drop_last() =~= widths@.take(i as int));
                lemma_total_prefix(widths@, i + 1);
            }
            total = total + widths[i];
            i = i + 1;
        }
        proof {
            assert(widths@.take(widths.len() as int) =~= widths@);
        }
        total
    }
}

proof fn lemma_total_prefix(widths: Seq<Width>, k: int)
    requires
        0 <= k <= widths.len(),
        width_total(widths) is Some,
    ensures
        width_total(widths.take(k)) is Some,
    decreases widths.len() - k,
{
    if k < widths.len() {
        assert(widths.take(k + 1).drop_last() =~= widths.take(k));
        lemma_total_prefix(widths, k + 1);
    } else {
        assert(widths.take(k) =~= widths);
    }
}

/// Law: adding widths is commutative and associative, a zero width adds
/// nothing, and an unbounded width absorbs any other.
pub proof fn law_width_add(a: Width, b: Width, c: Width)
    ensures
        width_sum(a, b) == width_sum(b, a),
        width_sum(a, Width::Bounded(0)) == Some(a),
        width_sum(a, Width::Unbounded) == Some(Width::Unbounded),
        width_sum(a, b) is Some && width_sum(b, c) is Some ==> width_sum(width_sum(a, b).unwrap(), c)
            == width_sum(a, width_sum(b, c).unwrap()),
{
}

/// Law: the total of widths put one after the other is the sum of their
/// totals, where no partial sum overflows.
pub proof fn law_width_total_concat(a: Seq<Width>, b: Seq<Width>)
    requires
        width_total(a + b) is Some,
        width_total(b) is Some,
    ensures
        width_total(a) is Some,
        width_total(a + b) == width_sum(width_total(a).unwrap(), width_total(b).unwrap()),
    decreases b.len(),
{
    lemma_total_prefix(a + b, a.len() as int);
    assert((a + b).take(a.len() as int) =~= a);
    if b.len() == 0 {
        assert(a + b =~= a);
    } else {
        assert((a + b).drop_last() =~= a + b.drop_last());
        lemma_total_prefix(a + b, (a + b).len() - 1);
        assert((a + b).take((a + b).len() - 1) =~= a + b.drop_last());
        lemma_total_prefix(b, b.len() - 1);
        assert(b.take(b.len() - 1) =~= b.drop_last());
        law_width_total_concat(a, b.drop_last());
        law_width_add(width_total(a).unwrap(), width_total(b.drop_last()).unwrap(), b.last());
    }
}

/// Support for returning the unicode width of a text object.
pub trait HasWidth {
    /// The width of the object.
    spec fn spec_width(&self) -> Width;

    /// Returns the unicode width of an object.
    fn width(&self) -> (r: Width)
        ensures
            r == self.spec_width(),
    ;
}

/// Support for returning the unicode width of text objects that are finite.
pub trait BoundedWidth {
    /// The width of the object.
    spec fn spec_bounded_width(&self) -> nat;

    /// Returns the finite unicode width of an object.
    fn bounded_width(&self) -> (r: usize)
        ensures
            r == self.spec_bounded_width(),
    ;
}

impl BoundedWidth for String {
    open spec fn spec_bounded_width(&self) -> nat {
        display_width(self@)
    }

    fn bounded_width(&self) -> (r: usize) {
        text_width(self.as_str())
    }
}

impl<'a> BoundedWidth for &'a str {
    open spec fn spec_bounded_width(&self) -> nat {
        display_width((*self)@)
    }

    fn bounded_width(&self) -> (r: usize) {
        text_width(*self)
    }
}

impl HasWidth for String {
    open spec fn spec_width(&self) -> Width {
        Width::Bounded(display_width(self@) as usize)
    }

    fn width(&self) -> (r: Width) {
        Width::Bounded(self.bounded_width())
    }
}

impl<'a> HasWidth for &'a str {
    open spec fn spec_width(&self) -> Width {
        Width::Bounded(display_width((*self)@) as usize)
    }

    fn width(&self) -> (r: Width) {
        Width::Bounded(self.bounded_width())
    }
}

} // verus!
