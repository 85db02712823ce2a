//! Laws of dropping repeated values from runs of styles.
use vstd::prelude::*;
use crate::text::painter::StyleValue;
use crate::text::spans::search_tree::{last_at_most, lemma_dedup_keys, seq_dedup, sorted_keys};

verus! {

/// Whether `same_as` is reflexive, symmetric and transitive on the values.
pub open spec fn same_as_equivalence<V: StyleValue>() -> bool {
    &&& forall|a: V| #[trigger] a.same_as(&a)
    &&& forall|a: V, b: V| #[trigger] a.same_as(&b) ==> b.same_as(&a)
    &&& forall|a: V, b: V, c: V| #[trigger] a.same_as(&b) && #[trigger] b.same_as(&c) ==> a.same_as(&c)
}

/// Whether no two neighbouring entries have the same value.
pub open spec fn no_repeats<V: StyleValue>(s: Seq<(usize, V)>) -> bool {
    forall|i: int| 0 < i < s.len() ==> !s[i - 1].1.same_as(&(#[trigger] s[i]).1)
}

/// What dropping repeated values leaves has no repeats, and its last value
/// is the same as the last of the entries.
proof fn lemma_dedup_shape<V: StyleValue>(s: Seq<(usize, V)>)
    requires
        same_as_equivalence::<V>(),
    ensures
        no_repeats(seq_dedup(s)),
        s.len() > 0 ==> seq_dedup(s).len() > 0 && seq_dedup(s).last().1.same_as(&s.last().1),
    decreases s.len(),
{
    if s.len() <= 1 {
        if s.len() == 1 {
            assert(s.last().1.same_as(&s.last().1));
        }
    } else {
        let t = s.drop_last();
        lemma_dedup_shape(t);
        let d = seq_dedup(t);
        let x = s.last().1;
        let y = t.last().1;
        assert(s[s.len() - 2] == t.last());
        if y.same_as(&x) {
            assert(d.last().1.same_as(&y) && y.same_as(&x));
        } else {
            let e = d.push(s.last());
            if d.last().1.same_as(&x) {
                assert(y.same_as(&d.last().1));
                assert(y.same_as(&d.last().1) && d.last().1.same_as(&x));
            }
            assert forall|i: int| 0 < i < e.len() implies !e[i - 1].1.same_as(&(#[trigger] e[i]).1) by {
                if i < e.len() - 1 {
                    assert(e[i] == d[i] && e[i - 1] == d[i - 1]);
                }
            }
            assert(x.same_as(&x));
        }
    }
}

/// Entries with no repeated values are left as they are.
proof fn lemma_dedup_fixed<V: StyleValue>(s: Seq<(usize, V)>)
    requires
        no_repeats(s),
    ensures
        seq_dedup(s) == s,
    decreases s.len(),
{
    if s.len() > 1 {
        let t = s.drop_last();
        assert forall|i: int| 0 < i < t.len() implies !t[i - 1].1.same_as(&(#[trigger] t[i]).1) by {
            assert(t[i] == s[i] && t[i - 1] == s[i - 1]);
        }
        lemma_dedup_fixed(t);
        assert(!s[s.len() - 2].1.same_as(&s[s.len() - 1].1));
        assert(t.push(s.last()) =~= s);
    }
}

/// Law: where `same_as` is an equivalence, dropping repeated values leaves
/// no two neighbouring entries with the same value, and doing it again
/// changes nothing.
pub proof fn law_dedup_idempotent<V: StyleValue>(s: Seq<(usize, V)>)
    requires
        same_as_equivalence::<V>(),
    ensures
        no_repeats(seq_dedup(s)),
        seq_dedup(seq_dedup(s)) == seq_dedup(s),
{
    lemma_dedup_shape(s);
    lemma_dedup_fixed(seq_dedup(s));
}

/// Law: where `same_as` is an equivalence, dropping repeated values from
/// entries in key order keeps what every lookup of the nearest key at or to
/// the left of a place gives: nothing where there was nothing, else a value
/// the same as before.
pub proof fn law_dedup_lookup<V: StyleValue>(s: Seq<(usize, V)>, x: int)
    requires
        sorted_keys(s),
        same_as_equivalence::<V>(),
    ensures
        last_at_most(seq_dedup(s), x) is None <==> last_at_most(s, x) is None,
        last_at_most(s, x) matches Some(b) ==> (last_at_most(seq_dedup(s), x) matches Some(a) && a.same_as(&b)),
    decreases s.len(),
{
    if s.len() <= 1 {
        if s.len() == 1 {
            assert(s.last().1.same_as(&s.last().1));
        }
    } else {
        let t = s.drop_last();
        assert(sorted_keys(t));
        law_dedup_lookup(t, x);
        lemma_dedup_shape(t);
        lemma_dedup_keys(t);
        let d = seq_dedup(t);
        assert(s[s.len() - 2] == t.last());
        assert(t.last().0 < s.last().0);
        if s.last().0 <= x {
            if t.last().1.same_as(&s.last().1) {
                assert(last_at_most(d, x) == Some(d.last().1));
                assert(d.last().1.same_as(&t.last().1) && t.last().1.same_as(&s.last().1));
            } else {
                let e = d.push(s.last());
                assert(e.last() == s.last());
                assert(s.last().1.same_as(&s.last().1));
            }
        } else {
            if !t.last().1.same_as(&s.last().1) {
                let e = d.push(s.last());
                assert(e.drop_last() =~= d);
                assert(last_at_most(e, x) == last_at_most(d, x));
            }
        }
    }
}

} // verus!
