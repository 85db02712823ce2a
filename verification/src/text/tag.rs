//! A simple format for surrounding text in tags.
use vstd::prelude::*;
use crate::text::painter::{painter_groups, Painter, StyleValue};

verus! {

/// A simple format for surrounding text in tags.
#[derive(Debug, PartialEq)]
pub struct Tag {
    opening: String,
    closing: String,
}

impl Tag {
    /// The text put before painted text.
    pub closed spec fn opening_view(&self) -> Seq<char> {
        self.opening@
    }

    /// The text put after painted text.
    pub closed spec fn closing_view(&self) -> Seq<char> {
        self.closing@
    }

    /// A tag with the given opening and closing text.
    pub fn new(opening: &str, closing: &str) -> (r: Self)
        ensures
            r.opening_view() == opening@,
            r.closing_view() == closing@,
    {
        Tag { opening: opening.to_owned(), closing: closing.to_owned() }
    }
}

impl Clone for Tag {
    fn clone(&self) -> (r: Self)
        ensures
            r == *self,
    {
        Tag { opening: self.opening.clone(), closing: self.closing.clone() }
    }
}

/// The state after some (tag, text) groups: what is painted so far, the
/// text of the current run of equal tags, and that run's tag.
pub open spec fn tag_runs(groups: Seq<(Tag, Seq<char>)>) -> (Seq<char>, Seq<char>, Option<Tag>)
    decreases groups.len(),
{
    if groups.len() == 0 {
        (Seq::empty(), Seq::empty(), None)
    } else {
        let (done, run, previous) = tag_runs(groups.drop_last());
        let tag = groups.last().0;
        let text = groups.last().1;
        match previous {
            Some(p) => if p.same_as(&tag) {
                (done, run + text, Some(p))
            } else {
                (done + p.spec_paint(run), text, Some(tag))
            },
            None => (done, run + text, Some(tag)),
        }
    }
}

/// The groups painted with adjacent runs of equal tags merged under one
/// tag; a final run with no text is left out.
pub open spec fn tag_paint_many(groups: Seq<(Tag, Seq<char>)>) -> Seq<char> {
    let (done, run, previous) = tag_runs(groups);
    match previous {
        Some(p) => if run.len() > 0 {
            done + p.spec_paint(run)
        } else {
            done
        },
        None => done,
    }
}

/// Law: nothing paints to nothing; one group paints its text in its tag;
/// two groups in equal tags paint as one run of their texts joined, and in
/// different tags, each in its own tag.
pub proof fn law_tag_paint_many(t: Tag, u: Tag, a: Seq<char>, b: Seq<char>)
    ensures
        tag_paint_many(Seq::empty()) == Seq::<char>::empty(),
        a.len() > 0 ==> tag_paint_many(seq![(t, a)]) == t.spec_paint(a),
        t.same_as(&u) && a.len() + b.len() > 0 ==> tag_paint_many(seq![(t, a), (u, b)]) == t.spec_paint(a + b),
        !t.same_as(&u) && a.len() > 0 && b.len() > 0 ==> tag_paint_many(seq![(t, a), (u, b)]) == t.spec_paint(a)
            + u.spec_paint(b),
{
    let one = seq![(t, a)];
    let two = seq![(t, a), (u, b)];
    assert(one.drop_last() =~= Seq::<(Tag, Seq<char>)>::empty());
    assert(two.drop_last() =~= one);
    assert(Seq::<char>::empty() + a =~= a);
    assert(Seq::<char>::empty() + t.spec_paint(a) =~= t.spec_paint(a));
}

impl StyleValue for Tag {
    open spec fn same_as(&self, other: &Self) -> bool {
        self.opening_view() == other.opening_view() && self.closing_view() == other.closing_view()
    }

    open spec fn is_plain(&self) -> bool {
        self.opening_view().len() == 0 && self.closing_view().len() == 0
    }

    fn same(&self, other: &Self) -> (r: bool) {
        self.opening == other.opening && self.closing == other.closing
    }

    fn duplicate(&self) -> (r: Self) {
        self.clone()
    }

    fn plain() -> (r: Self) {
        Tag { opening: String::new(), closing: String::new() }
    }
}

impl Painter for Tag {
    open spec fn paint_specified() -> bool {
        true
    }

    open spec fn spec_paint_many(groups: Seq<(Tag, Seq<char>)>) -> Seq<char> {
        tag_paint_many(groups)
    }

    open spec fn spec_paint(&self, target: Seq<char>) -> Seq<char> {
        self.opening_view() + target + self.closing_view()
    }

    fn paint(&self, target: &str) -> (r: String) {
        let mut r = self.opening.clone();
        r.append(target);
        r.append(self.closing.as_str());
        r
    }

    fn paint_many(groups: &Vec<(&Tag, &str)>) -> (r: String) {
        let mut result = String::new();
        let mut run = String::new();
        let mut previous: Option<Tag> = None;
        let mut i: usize = 0;
        while i < groups.len()
            invariant
                i <= groups.len(),
                (result@, run@, previous) == tag_runs(painter_groups(groups@.take(i as int))),
            decreases groups.len() - i,
        {
            proof {
                assert(painter_groups(groups@.take(i + 1)).drop_last() =~= painter_groups(
                    groups@.take(i as int),
                ));
            }
            let (tag, text) = groups[i];
            match previous {
                Some(p) => {
                    if p.same(tag) {
                        run.append(text);
                        previous = Some(p);
                    } else {
                        let painted = p.paint(run.as_str());
                        result.append(painted.as_str());
                        run = text.to_owned();
                        previous = Some(tag.clone());
                    }
                },
                None => {
                    run.append(text);
                    previous = Some(tag.clone());
                },
            }
            i = i + 1;
        }
        proof {
            assert(groups@.take(groups.len() as int) =~= groups@);
            assert(painter_groups(groups@.take(0)) =~= Seq::empty());
        }
        match previous {
            Some(p) => {
                if run.as_str().unicode_len() > 0 {
                    let painted = p.paint(run.as_str());
                    result.append(painted.as_str());
                }
            },
            None => {},
        }
        result
    }
}

} // verus!
