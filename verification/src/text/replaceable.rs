//! Replacing text in text objects, literally or by regular expression.
use vstd::prelude::*;
use crate::outside::{regex_captures, regex_expansion, regex_match_spans};
use crate::text::expandable::Expandable;
use crate::text::pattern::Pattern;
use crate::text::matching::{lemma_next_occurrence, literal_matches, match_byte_ranges, occurrences, occurs_at};
use crate::text::offsets::byte_len;
use crate::text::splitable::{lemma_slice_between, lemma_split_facts, occ_end, prev_end};
use crate::text::offsets::{lemma_slice_whole, str_slice};
use crate::text::pushable::Pushable;
use crate::text::sliceable::{Bound, Bounds, Sliceable};
use crate::text::spans::replace::{replacement_views, span_of};

verus! {

/// Replacing text in text-like objects.
pub trait Replaceable<R>: Sized {
    /// Whether the object can have its text replaced by `replacer`; every
    /// pair can, unless an implementation asks for well-formedness.
    open spec fn can_replace(&self, replacer: R) -> bool {
        true
    }

    /// Performs literal string replacement.
    fn replace(&self, from: &str, replacer: R) -> Self
        requires
            self.can_replace(replacer),
    ;

    /// Performs regex string replacement.
    fn replace_regex(&self, searcher: &Pattern, replacer: R) -> Self
        requires
            self.can_replace(replacer),
    ;
}

/// The text of a slice, or nothing where the slice fails.
pub open spec fn piece_text(piece: Option<Seq<char>>) -> Seq<char> {
    match piece {
        Some(p) => p,
        None => Seq::empty(),
    }
}

/// Literal replacement in a plain text after some occurrences: the text
/// before each occurrence, then the replacement; and where the last one
/// ended.
pub open spec fn text_replace_fold(src: Seq<char>, ms: Seq<(usize, usize)>, replacer: Seq<char>) -> (
    Seq<char>,
    usize,
)
    decreases ms.len(),
{
    if ms.len() == 0 {
        (Seq::empty(), 0)
    } else {
        let (acc, last) = text_replace_fold(src, ms.drop_last(), replacer);
        (acc + piece_text(str_slice(src, span_of(last, ms.last().0))) + replacer, ms.last().1)
    }
}

/// The plain text with each occurrence replaced, and the rest of the text
/// after the last one.
pub open spec fn text_replaced(src: Seq<char>, ms: Seq<(usize, usize)>, replacer: Seq<char>) -> Seq<char> {
    let (acc, last) = text_replace_fold(src, ms, replacer);
    acc + piece_text(str_slice(src, Bounds { start: Bound::Included(last), end: Bound::Unbounded }))
}

/// Replacement of matches in a plain text, each with its own replacement:
/// where the text before the match slices, it is kept, and where the match
/// also slices, its replacement follows.
pub open spec fn text_match_fold(src: Seq<char>, ms: Seq<(usize, usize, Seq<char>)>) -> (Seq<char>, usize)
    decreases ms.len(),
{
    if ms.len() == 0 {
        (Seq::empty(), 0)
    } else {
        let (acc, last) = text_match_fold(src, ms.drop_last());
        let m = ms.last();
        match str_slice(src, span_of(last, m.0)) {
            Some(piece) => (
                acc + piece + match str_slice(src, span_of(m.0, m.1)) {
                    Some(_) => m.2,
                    None => Seq::empty(),
                },
                m.1,
            ),
            None => (acc, m.1),
        }
    }
}

/// The plain text with each match replaced, and the rest of the text after
/// the last one.
pub open spec fn text_match_replaced(src: Seq<char>, ms: Seq<(usize, usize, Seq<char>)>) -> Seq<char> {
    let (acc, last) = text_match_fold(src, ms);
    acc + piece_text(str_slice(src, Bounds { start: Bound::Included(last), end: Bound::Unbounded }))
}

/// Law: replacing a pattern that occurs nowhere in a text leaves the text
/// as it is; and with no matches, a regex replacement leaves it too.
pub proof fn law_replace_absent(src: Seq<char>, pattern: Seq<char>, replacer: Seq<char>)
    requires
        forall|i: int| !occurs_at(src, pattern, i),
    ensures
        literal_matches(src, pattern).len() == 0,
        text_replaced(src, literal_matches(src, pattern), replacer) == src,
        text_match_replaced(src, Seq::empty()) == src,
{
    lemma_next_occurrence(src, pattern, 0);
    assert(literal_matches(src, pattern) =~= Seq::<(usize, usize)>::empty());
    lemma_slice_whole(src);
    assert(Seq::<char>::empty() + src =~= src);
}

/// Replacing the first `k` occurrences of a pattern by the pattern itself
/// builds the text up to the end of the `k`th occurrence.
proof fn lemma_identity_prefix(s: Seq<char>, pattern: Seq<char>, k: int)
    requires
        byte_len(s) <= usize::MAX,
        0 <= k <= literal_matches(s, pattern).len(),
    ensures
        text_replace_fold(s, literal_matches(s, pattern).take(k), pattern) == (
            s.take(occ_end(occurrences(s, pattern, 0), pattern.len() as int, k)),
            prev_end(literal_matches(s, pattern), k),
        ),
    decreases k,
{
    let ms = literal_matches(s, pattern);
    let occ = occurrences(s, pattern, 0);
    let pl = pattern.len() as int;
    if k == 0 {
        assert(ms.take(0) =~= Seq::<(usize, usize)>::empty());
        assert(s.take(0) =~= Seq::<char>::empty());
    } else {
        let j = k - 1;
        assert(ms.take(k).drop_last() =~= ms.take(j));
        assert(ms.take(k).last() == ms[j]);
        lemma_identity_prefix(s, pattern, j);
        lemma_split_facts(s, pattern, j);
        let o = occ[j];
        let e = occ_end(occ, pl, j);
        lemma_slice_between(s, e, o);
        assert(s.subrange(o, o + pl) == pattern);
        assert(s.take(e) + s.subrange(e, o) + pattern =~= s.take(o + pl));
    }
}

/// Law: replacing every occurrence of a pattern by the pattern itself gives
/// the text back: the text around the occurrences is kept once each, in
/// order.
pub proof fn law_replace_identity(s: Seq<char>, pattern: Seq<char>)
    requires
        byte_len(s) <= usize::MAX,
    ensures
        text_replaced(s, literal_matches(s, pattern), pattern) == s,
{
    let ms = literal_matches(s, pattern);
    let occ = occurrences(s, pattern, 0);
    let n = ms.len() as int;
    assert(ms.take(n) =~= ms);
    lemma_identity_prefix(s, pattern, n);
    lemma_split_facts(s, pattern, n);
    let e = occ_end(occ, pattern.len() as int, n);
    lemma_slice_between(s, e, s.len() as int);
    assert(s.take(e) + s.subrange(e, s.len() as int) =~= s);
}

impl<'a> Replaceable<&'a String> for String {
    /// Replaces each occurrence of `from`, from the left, with `replacer`.
    fn replace(&self, from: &str, replacer: &'a String) -> (r: String)
        ensures
            r@ == text_replaced(self@, literal_matches(self@, from@), replacer@),
    {
        let found = match_byte_ranges(self.as_str(), from);
        let mut result = String::new();
        let mut last: usize = 0;
        let mut i: usize = 0;
        while i < found.len()
            invariant
                i <= found@.len(),
                found@ == literal_matches(self@, from@),
                text_replace_fold(self@, found@.take(i as int), replacer@) == (result@, last),
            decreases found.len() - i,
        {
            proof {
                assert(found@.take(i + 1).drop_last() =~= found@.take(i as int));
            }
            let ghost before = result@;
            match self.slice(Bounds { start: Bound::Included(last), end: Bound::Excluded(found[i].0) }) {
                Some(piece) => {
                    if !piece.as_str().is_empty() {
                        Pushable::<String>::push(&mut result, &piece);
                    } else {
                        proof {
                            assert(before + piece@ =~= before);
                        }
                    }
                },
                None => {
                    proof {
                        assert(before + Seq::<char>::empty() =~= before);
                    }
                },
            }
            Pushable::<String>::push(&mut result, replacer);
            last = found[i].1;
            i = i + 1;
        }
        proof {
            assert(found@.take(found@.len() as int) =~= found@);
        }
        let ghost before = result@;
        match self.slice(Bounds { start: Bound::Included(last), end: Bound::Unbounded }) {
            Some(tail) => {
                if !tail.as_str().is_empty() {
                    Pushable::<String>::push(&mut result, &tail);
                } else {
                    proof {
                        assert(before + tail@ =~= before);
                    }
                }
            },
            None => {
                proof {
                    assert(before + Seq::<char>::empty() =~= before);
                }
            },
        }
        result
    }

    /// Replaces each match of the regular expression, from the left, with
    /// `replacer` with its capture references expanded from that match.
    fn replace_regex(&self, searcher: &Pattern, replacer: &'a String) -> (r: String)
        ensures
            r@ == text_match_replaced(self@, regex_replacements(searcher@, self@, replacer@)),
    {
        let found = regex_captures(searcher, self.as_str());
        let ghost want = regex_replacements(searcher@, self@, replacer@);
        let mut ms: Vec<(usize, usize, String)> = Vec::new();
        let mut i: usize = 0;
        while i < found.len()
            invariant
                i <= found@.len(),
                found@.len() == want.len(),
                want == regex_replacements(searcher@, self@, replacer@),
                forall|j: int|
                    0 <= j < found@.len() ==> (#[trigger] found@[j]).0 == regex_match_spans(searcher@, self@)[j].0
                        && found@[j].1 == regex_match_spans(searcher@, self@)[j].1 && found@[j].2@ == (
                        searcher@,
                        self@,
                        j,
                    ),
                replacement_views(ms@) == want.take(i as int),
            decreases found.len() - i,
        {
            let text = replacer.expand(&found[i].2);
            let ghost before = ms@;
            ms.push((found[i].0, found[i].1, text));
            proof {
                assert(replacement_views(ms@) =~= replacement_views(before).push((found@[i as int].0, found@[i as int].1, text@)));
                assert(replacement_views(ms@) =~= want.take(i + 1));
            }
            i = i + 1;
        }
        proof {
            assert(want.take(i as int) =~= want);
        }
        replace_text_matches(self, &ms)
    }
}

/// The matches of a regular expression in a text, each with the template
/// expanded from that match's capture groups.
pub open spec fn regex_replacements(pattern: Seq<char>, text: Seq<char>, template: Seq<char>) -> Seq<
    (usize, usize, Seq<char>),
> {
    Seq::new(
        regex_match_spans(pattern, text).len(),
        |i: int|
            (
                regex_match_spans(pattern, text)[i].0,
                regex_match_spans(pattern, text)[i].1,
                regex_expansion(pattern, text, i, template),
            ),
    )
}

/// Replaces the given byte ranges (start, end, new text) of a text in
/// order: where the text before a range slices, it is kept, and where the
/// range also slices, its new text follows; the rest of the text comes last.
pub fn replace_text_matches(text: &String, ms: &Vec<(usize, usize, String)>) -> (r: String)
    ensures
        r@ == text_match_replaced(text@, replacement_views(ms@)),
{
    let mut result = String::new();
    let mut last: usize = 0;
    let mut i: usize = 0;
    while i < ms.len()
        invariant
            i <= ms@.len(),
            text_match_fold(text@, replacement_views(ms@).take(i as int)) == (result@, last),
        decreases ms.len() - i,
    {
        proof {
            assert(replacement_views(ms@).take(i + 1).drop_last() =~= replacement_views(ms@).take(i as int));
            assert(replacement_views(ms@).take(i + 1).last() == (ms@[i as int].0, ms@[i as int].1, ms@[i as int].2@));
        }
        let start = ms[i].0;
        let end = ms[i].1;
        let ghost before = result@;
        match text.slice(Bounds { start: Bound::Included(last), end: Bound::Excluded(start) }) {
            Some(piece) => {
                Pushable::<String>::push(&mut result, &piece);
                match text.slice(Bounds { start: Bound::Included(start), end: Bound::Excluded(end) }) {
                    Some(_) => {
                        Pushable::<String>::push(&mut result, &ms[i].2);
                    },
                    None => {
                        proof {
                            assert(before + piece@ + Seq::<char>::empty() =~= before + piece@);
                        }
                    },
                }
            },
            None => {},
        }
        last = end;
        i = i + 1;
    }
    proof {
        assert(replacement_views(ms@).take(ms@.len() as int) =~= replacement_views(ms@));
    }
    let ghost before = result@;
    match text.slice(Bounds { start: Bound::Included(last), end: Bound::Unbounded }) {
        Some(tail) => {
            Pushable::<String>::push(&mut result, &tail);
        },
        None => {
            proof {
                assert(before + Seq::<char>::empty() =~= before);
            }
        },
    }
    result
}

} // verus!
