//! Pushing one text object onto another of the same kind.
use vstd::prelude::*;

verus! {

/// Text objects that can have content pushed into them without changing
/// type.
pub trait Pushable<T: ?Sized> {
    /// Whether `other` can be pushed onto this object; every pair can,
    /// unless an implementation asks for its own well-formedness.
    open spec fn can_push(&self, other: &T) -> bool {
        true
    }

    /// Pushes another text object onto this one.
    fn push(&mut self, other: &T)
        requires
            old(self).can_push(other),
    ;
}

impl Pushable<str> for String {
    fn push(&mut self, other: &str)
        ensures
            final(self)@ == old(self)@ + other@,
    {
        self.append(other);
    }
}

impl Pushable<String> for String {
    fn push(&mut self, other: &String)
        ensures
            final(self)@ == old(self)@ + other@,
    {
        self.append(other.as_str());
    }
}

} // verus!
