//! A data structure to look up the value that stands to the left of a key.
use vstd::prelude::*;
use crate::text::painter::StyleValue;
use crate::text::sliceable::{Bound, Bounds};

verus! {

/// Whether the keys of the entries strictly increase.
pub open spec fn sorted_keys<V>(s: Seq<(usize, V)>) -> bool {
    forall|i: int, j: int| 0 <= i < j < s.len() ==> s[i].0 < s[j].0
}

/// The entries after `key` is set to `value`: the entry with that key is
/// replaced, or a new entry is placed before the first greater key.
pub open spec fn seq_insert<V>(s: Seq<(usize, V)>, key: usize, value: V) -> Seq<(usize, V)>
    decreases s.len(),
{
    if s.len() == 0 {
        seq![(key, value)]
    } else if s[0].0 == key {
        seq![(key, value)] + s.drop_first()
    } else if key < s[0].0 {
        seq![(key, value)] + s
    } else {
        seq![s[0]] + seq_insert(s.drop_first(), key, value)
    }
}

/// The value stored under `key`, if any.
pub open spec fn seq_get<V>(s: Seq<(usize, V)>, key: usize) -> Option<V>
    decreases s.len(),
{
    if s.len() == 0 {
        None
    } else if s[0].0 == key {
        Some(s[0].1)
    } else {
        seq_get(s.drop_first(), key)
    }
}

/// The value of the last entry whose key is at most `x`.
pub open spec fn last_at_most<V>(s: Seq<(usize, V)>, x: int) -> Option<V>
    decreases s.len(),
{
    if s.len() == 0 {
        None
    } else if s.last().0 <= x {
        Some(s.last().1)
    } else {
        last_at_most(s.drop_last(), x)
    }
}

/// The entries whose keys are at most `max_key`.
pub open spec fn seq_trim<V>(s: Seq<(usize, V)>, max_key: usize) -> Seq<(usize, V)>
    decreases s.len(),
{
    if s.len() == 0 {
        s
    } else if s.last().0 > max_key {
        seq_trim(s.drop_last(), max_key)
    } else {
        s
    }
}

/// The entries without each one whose value is the same as that of the
/// entry just before it.
pub open spec fn seq_dedup<V: StyleValue>(s: Seq<(usize, V)>) -> Seq<(usize, V)>
    decreases s.len(),
{
    if s.len() <= 1 {
        s
    } else if s[s.len() - 2].1.same_as(&s.last().1) {
        seq_dedup(s.drop_last())
    } else {
        seq_dedup(s.drop_last()).push(s.last())
    }
}

/// The entries whose keys lie in the range, in order.
pub open spec fn seq_in_range<V>(s: Seq<(usize, V)>, range: Bounds) -> Seq<(usize, V)>
    decreases s.len(),
{
    if s.len() == 0 {
        s
    } else if range.has(s.last().0 as int) {
        seq_in_range(s.drop_last(), range).push(s.last())
    } else {
        seq_in_range(s.drop_last(), range)
    }
}

/// The entries after the items are copied in, in order, each with its key
/// shifted where the shifted key is not negative and kept otherwise; the
/// flag is false where a key does not fit the signed type of the shift,
/// and then the items from that one on are not copied.
pub open spec fn shift_into<V>(s: Seq<(usize, V)>, items: Seq<(usize, V)>, shift: isize) -> (
    Seq<(usize, V)>,
    bool,
)
    decreases items.len(),
{
    if items.len() == 0 {
        (s, true)
    } else if items[0].0 > isize::MAX {
        (s, false)
    } else {
        let moved = items[0].0 + shift;
        let s2 = if moved >= 0 {
            seq_insert(s, moved as usize, items[0].1)
        } else {
            seq_insert(s, items[0].0, items[0].1)
        };
        shift_into(s2, items.drop_first(), shift)
    }
}

/// The entries after the items are inserted in order, each with `offset`
/// taken off its key.
pub open spec fn insert_shifted<V>(s: Seq<(usize, V)>, items: Seq<(usize, V)>, offset: usize) -> Seq<
    (usize, V),
>
    decreases items.len(),
{
    if items.len() == 0 {
        s
    } else {
        insert_shifted(
            seq_insert(s, (items[0].0 - offset) as usize, items[0].1),
            items.drop_first(),
            offset,
        )
    }
}

/// The entries after the items are inserted in order, each with `shift`
/// added to its key.
pub open spec fn shift_up_into<V>(s: Seq<(usize, V)>, items: Seq<(usize, V)>, shift: usize) -> Seq<
    (usize, V),
>
    decreases items.len(),
{
    if items.len() == 0 {
        s
    } else {
        shift_up_into(
            seq_insert(s, (items[0].0 + shift) as usize, items[0].1),
            items.drop_first(),
            shift,
        )
    }
}

/// The key and value that a slice starting at the range's start begins
/// with: the value in force just before the start, placed at the start,
/// or the first entry where no entry stands before the start.
pub open spec fn slice_origin<V>(s: Seq<(usize, V)>, range: Bounds) -> (usize, V)
    recommends
        s.len() > 0,
{
    match range.start {
        Bound::Excluded(x) => match last_at_most(s, x as int) {
            Some(v) => (x, v),
            None => s[0],
        },
        Bound::Included(x) => match last_at_most(s, x - 1) {
            Some(v) => (x, v),
            None => s[0],
        },
        Bound::Unbounded => s[0],
    }
}

/// The entries of a slice of the tree: the origin value under the first
/// key, then each entry in the range with its key moved back by the
/// origin key. An empty tree has no slice.
pub open spec fn seq_slice<V>(s: Seq<(usize, V)>, range: Bounds) -> Option<Seq<(usize, V)>> {
    if s.len() == 0 {
        None
    } else {
        let origin = slice_origin(s, range);
        Some(insert_shifted(seq![(s[0].0, origin.1)], seq_in_range(s, range), origin.0))
    }
}

/// Whether no key exceeds `m`.
pub open spec fn keys_at_most<V>(s: Seq<(usize, V)>, m: int) -> bool {
    forall|i: int| 0 <= i < s.len() ==> (#[trigger] s[i]).0 <= m
}

/// Setting a key no greater than a bound keeps every key within it.
pub proof fn lemma_insert_bounded<V>(s: Seq<(usize, V)>, key: usize, value: V, m: int)
    requires
        keys_at_most(s, m),
        key <= m,
    ensures
        keys_at_most(seq_insert(s, key, value), m),
    decreases s.len(),
{
    if s.len() > 0 && s[0].0 != key && key >= s[0].0 {
        let t = s.drop_first();
        assert(keys_at_most(t, m));
        lemma_insert_bounded(t, key, value, m);
        assert(seq_insert(s, key, value) =~= seq![s[0]] + seq_insert(t, key, value));
    } else if s.len() > 0 && s[0].0 == key {
        assert(seq_insert(s, key, value) =~= seq![(key, value)] + s.drop_first());
    } else if s.len() > 0 {
        assert(seq_insert(s, key, value) =~= seq![(key, value)] + s);
    }
}

/// Trimming sorted entries leaves keys no greater than the limit, and keeps
/// any bound the entries had.
pub proof fn lemma_trim_bounded<V>(s: Seq<(usize, V)>, max_key: usize, m: int)
    requires
        sorted_keys(s),
    ensures
        keys_at_most(seq_trim(s, max_key), max_key as int),
        keys_at_most(s, m) ==> keys_at_most(seq_trim(s, max_key), m),
        sorted_keys(seq_trim(s, max_key)),
    decreases s.len(),
{
    if s.len() > 0 && s.last().0 > max_key {
        let t = s.drop_last();
        assert(sorted_keys(t));
        lemma_trim_bounded(t, max_key, m);
    } else if s.len() > 0 {
        assert forall|i: int| 0 <= i < s.len() implies (#[trigger] s[i]).0 <= max_key by {
            if i < s.len() - 1 {
                assert(s[i].0 < s[s.len() - 1].0);
            }
        }
    }
}

/// Dropping repeated values keeps any bound on the keys.
pub proof fn lemma_dedup_bounded<V: StyleValue>(s: Seq<(usize, V)>, m: int)
    requires
        keys_at_most(s, m),
    ensures
        keys_at_most(seq_dedup(s), m),
    decreases s.len(),
{
    if s.len() > 1 {
        let t = s.drop_last();
        assert(keys_at_most(t, m));
        lemma_dedup_bounded(t, m);
    }
}

/// The nearest value at or left of `k` in entries after a first one: the
/// nearest among the later entries, or else the first where its key is at
/// most `k`.
proof fn lemma_last_at_most_cons<V>(x: (usize, V), t: Seq<(usize, V)>, k: int)
    ensures
        last_at_most(seq![x] + t, k) == (match last_at_most(t, k) {
            Some(v) => Some(v),
            None => if x.0 <= k {
                Some(x.1)
            } else {
                None
            },
        }),
    decreases t.len(),
{
    let s = seq![x] + t;
    if t.len() == 0 {
        assert(s.drop_last() =~= Seq::<(usize, V)>::empty());
    } else {
        assert(s.last() == t.last());
        assert(s.drop_last() =~= seq![x] + t.drop_last());
        lemma_last_at_most_cons(x, t.drop_last(), k);
    }
}

/// No value stands at or left of `k` among entries whose keys all exceed it.
proof fn lemma_last_at_most_above<V>(t: Seq<(usize, V)>, k: int)
    requires
        forall|i: int| 0 <= i < t.len() ==> (#[trigger] t[i]).0 > k,
    ensures
        last_at_most(t, k) is None,
    decreases t.len(),
{
    if t.len() > 0 {
        let u = t.drop_last();
        assert forall|i: int| 0 <= i < u.len() implies (#[trigger] u[i]).0 > k by {
            assert(u[i] == t[i]);
        }
        lemma_last_at_most_above(u, k);
    }
}

/// Setting a key above a bound, in entries whose keys are all above it,
/// keeps every key above it.
proof fn lemma_insert_above<V>(s: Seq<(usize, V)>, key: usize, value: V, m: int)
    requires
        forall|i: int| 0 <= i < s.len() ==> (#[trigger] s[i]).0 > m,
        key > m,
    ensures
        forall|i: int| 0 <= i < seq_insert(s, key, value).len() ==> (#[trigger] seq_insert(s, key, value)[i]).0 > m,
    decreases s.len(),
{
    if s.len() > 0 && s[0].0 != key && key >= s[0].0 {
        let t = s.drop_first();
        assert forall|i: int| 0 <= i < t.len() implies (#[trigger] t[i]).0 > m by {
            assert(t[i] == s[i + 1]);
        }
        lemma_insert_above(t, key, value, m);
        let r = seq_insert(s, key, value);
        assert(r =~= seq![s[0]] + seq_insert(t, key, value));
        assert forall|i: int| 0 <= i < r.len() implies (#[trigger] r[i]).0 > m by {
            if i > 0 {
                assert(r[i] == seq_insert(t, key, value)[i - 1]);
            }
        }
    } else if s.len() > 0 && s[0].0 == key {
        let r = seq_insert(s, key, value);
        assert(r =~= seq![(key, value)] + s.drop_first());
        assert forall|i: int| 0 <= i < r.len() implies (#[trigger] r[i]).0 > m by {
            if i > 0 {
                assert(r[i] == s[i]);
            }
        }
    } else if s.len() > 0 {
        let r = seq_insert(s, key, value);
        assert(r =~= seq![(key, value)] + s);
        assert forall|i: int| 0 <= i < r.len() implies (#[trigger] r[i]).0 > m by {
            if i > 0 {
                assert(r[i] == s[i - 1]);
            }
        }
    }
}

/// Law: after a key is set to a value, looking the key up, either exactly or
/// as the nearest key at or to its left, gives that value; the entries stay
/// in order of their keys; and every other key keeps its value.
pub proof fn law_insert_then_lookup<V>(s: Seq<(usize, V)>, key: usize, value: V)
    requires
        sorted_keys(s),
    ensures
        seq_get(seq_insert(s, key, value), key) == Some(value),
        last_at_most(seq_insert(s, key, value), key as int) == Some(value),
        sorted_keys(seq_insert(s, key, value)),
        forall|k: usize| k != key ==> seq_get(seq_insert(s, key, value), k) == seq_get(s, k),
    decreases s.len(),
{
    let r = seq_insert(s, key, value);
    if s.len() == 0 {
        assert(r =~= seq![(key, value)]);
        assert(r.drop_last() =~= Seq::<(usize, V)>::empty());
        assert(r[0] == (key, value));
        assert forall|k: usize| k != key implies seq_get(r, k) == seq_get(s, k) by {
            assert(r.drop_first() =~= Seq::<(usize, V)>::empty());
            assert(seq_get(r.drop_first(), k) is None);
        }
    } else if s[0].0 == key {
        let t = s.drop_first();
        assert(r =~= seq![(key, value)] + t);
        assert(r.drop_first() =~= t);
        assert forall|i: int| 0 <= i < t.len() implies (#[trigger] t[i]).0 > key by {
            assert(t[i] == s[i + 1]);
            assert(s[0].0 < s[i + 1].0);
        }
        lemma_last_at_most_above(t, key as int);
        lemma_last_at_most_cons((key, value), t, key as int);
        assert(r[0] == (key, value));
        assert forall|k: usize| k != key implies seq_get(r, k) == seq_get(s, k) by {
            assert(seq_get(r, k) == seq_get(t, k));
        }
        assert forall|i: int, j: int| 0 <= i < j < r.len() implies r[i].0 < r[j].0 by {
            if i > 0 {
                assert(r[i] == s[i]);
            }
            assert(r[j] == s[j]);
        }
    } else if key < s[0].0 {
        assert(r =~= seq![(key, value)] + s);
        assert(r.drop_first() =~= s);
        assert forall|i: int| 0 <= i < s.len() implies (#[trigger] s[i]).0 > key by {
            if i > 0 {
                assert(s[0].0 < s[i].0);
            }
        }
        lemma_last_at_most_above(s, key as int);
        lemma_last_at_most_cons((key, value), s, key as int);
        assert(r[0] == (key, value));
        assert forall|k: usize| k != key implies seq_get(r, k) == seq_get(s, k) by {
            assert(seq_get(r, k) == seq_get(s, k));
        }
        assert forall|i: int, j: int| 0 <= i < j < r.len() implies r[i].0 < r[j].0 by {
            if i > 0 {
                assert(r[i] == s[i - 1]);
            }
            assert(r[j] == s[j - 1]);
        }
    } else {
        let t = s.drop_first();
        assert(sorted_keys(t));
        law_insert_then_lookup(t, key, value);
        let r1 = seq_insert(t, key, value);
        assert(r =~= seq![s[0]] + r1);
        assert(r.drop_first() =~= r1);
        lemma_last_at_most_cons(s[0], r1, key as int);
        assert forall|i: int| 0 <= i < t.len() implies (#[trigger] t[i]).0 > s[0].0 by {
            assert(t[i] == s[i + 1]);
            assert(s[0].0 < s[i + 1].0);
        }
        lemma_insert_above(t, key, value, s[0].0 as int);
        assert(r[0] == s[0]);
        assert forall|k: usize| k != key implies seq_get(r, k) == seq_get(s, k) by {
            if s[0].0 != k {
                assert(seq_get(r, k) == seq_get(r1, k));
                assert(seq_get(s, k) == seq_get(t, k));
            }
        }
        assert forall|i: int, j: int| 0 <= i < j < r.len() implies r[i].0 < r[j].0 by {
            assert(r[j] == r1[j - 1]);
            if i > 0 {
                assert(r[i] == r1[i - 1]);
            }
        }
    }
}

proof fn lemma_get_absent<V>(s: Seq<(usize, V)>, key: usize)
    requires
        forall|i: int| 0 <= i < s.len() ==> s[i].0 != key,
    ensures
        seq_get(s, key) is None,
    decreases s.len(),
{
    if s.len() > 0 {
        lemma_get_absent(s.drop_first(), key);
    }
}

proof fn lemma_insert_at<V>(s: Seq<(usize, V)>, key: usize, value: V, p: int)
    requires
        sorted_keys(s),
        0 <= p <= s.len(),
        forall|i: int| 0 <= i < p ==> s[i].0 < key,
        p < s.len() ==> s[p].0 >= key,
    ensures
        seq_insert(s, key, value) == (if p < s.len() && s[p].0 == key {
            s.take(p).push((key, value)) + s.skip(p + 1)
        } else {
            s.take(p).push((key, value)) + s.skip(p)
        }),
        seq_get(s, key) == (if p < s.len() && s[p].0 == key {
            Some(s[p].1)
        } else {
            None::<V>
        }),
        sorted_keys(seq_insert(s, key, value)),
    decreases p,
{
    if p == 0 {
        if s.len() > 0 && s[0].0 == key {
            assert(s.take(0).push((key, value)) + s.skip(1) =~= seq![(key, value)] + s.drop_first());
        } else {
            assert(s.take(0).push((key, value)) + s.skip(0) =~= seq![(key, value)] + s);
            if s.len() > 0 {
                assert(key < s[0].0);
            }
            lemma_get_absent(s, key);
        }
    } else {
        let t = s.drop_first();
        assert(sorted_keys(t));
        lemma_insert_at(t, key, value, p - 1);
        if p < s.len() && s[p].0 == key {
            assert(seq![s[0]] + (t.take(p - 1).push((key, value)) + t.skip(p)) =~= s.take(p).push(
                (key, value),
            ) + s.skip(p + 1));
        } else {
            assert(seq![s[0]] + (t.take(p - 1).push((key, value)) + t.skip(p - 1)) =~= s.take(
                p,
            ).push((key, value)) + s.skip(p));
        }
    }
    let r = seq_insert(s, key, value);
    assert forall|i: int, j: int| 0 <= i < j < r.len() implies r[i].0 < r[j].0 by {
        if p < s.len() && s[p].0 == key {
            assert(r =~= s.take(p).push((key, value)) + s.skip(p + 1));
        } else {
            assert(r =~= s.take(p).push((key, value)) + s.skip(p));
        }
    }
}

proof fn lemma_in_range_members<V>(s: Seq<(usize, V)>, range: Bounds)
    requires
        sorted_keys(s),
    ensures
        sorted_keys(seq_in_range(s, range)),
        forall|j: int|
            0 <= j < seq_in_range(s, range).len() ==> range.has(
                #[trigger] seq_in_range(s, range)[j].0 as int,
            ) && s[0].0 <= seq_in_range(s, range)[j].0,
        s.len() > 0 && seq_in_range(s, range).len() > 0 ==> seq_in_range(s, range).last().0
            <= s.last().0,
    decreases s.len(),
{
    if s.len() > 0 {
        let t = s.drop_last();
        assert(sorted_keys(t));
        lemma_in_range_members(t, range);
        let rest = seq_in_range(t, range);
        if t.len() > 0 {
            assert(t[0] == s[0]);
        }
        if rest.len() > 0 {
            assert(rest.last().0 <= t.last().0);
            assert(t.last().0 < s.last().0);
        }
    }
}

proof fn lemma_nothing_below_zero<V>(s: Seq<(usize, V)>)
    ensures
        last_at_most(s, -1) is None,
    decreases s.len(),
{
    if s.len() > 0 {
        lemma_nothing_below_zero(s.drop_last());
    }
}

proof fn lemma_dedup_step<V: StyleValue>(s: Seq<(usize, V)>, i: int)
    requires
        0 < i < s.len(),
    ensures
        seq_dedup(s.take(i + 1)) == (if s[i - 1].1.same_as(&s[i].1) {
            seq_dedup(s.take(i))
        } else {
            seq_dedup(s.take(i)).push(s[i])
        }),
{
    let t = s.take(i + 1);
    assert(t.drop_last() =~= s.take(i));
}

/// Dropping repeated values keeps the keys in order, and the last key is no
/// greater than before.
pub proof fn lemma_dedup_keys<V: StyleValue>(s: Seq<(usize, V)>)
    requires
        sorted_keys(s),
    ensures
        sorted_keys(seq_dedup(s)),
        s.len() > 0 ==> seq_dedup(s).len() > 0 && seq_dedup(s).last().0 <= s.last().0,
    decreases s.len(),
{
    if s.len() > 1 {
        let t = s.drop_last();
        assert(sorted_keys(t));
        lemma_dedup_keys(t);
        assert(t.last().0 < s.last().0);
    }
}

/// Data structure to quickly look up the nearest value at or before a given
/// key. The entries are kept in order of their keys.
#[derive(Clone, Debug, PartialEq, Eq)]
pub struct SearchTree<V> {
    tree: Vec<(usize, V)>,
}

impl<V> View for SearchTree<V> {
    type V = Seq<(usize, V)>;

    closed spec fn view(&self) -> Seq<(usize, V)> {
        self.tree@
    }
}

/// Why keys could not be shifted: a key does not fit the shift's signed type.
#[derive(Debug, Clone, Copy, PartialEq, Eq, Structural)]
pub struct ShiftError;

impl<V> Default for SearchTree<V> {
    fn default() -> (r: Self)
        ensures
            r@ == Seq::<(usize, V)>::empty(),
    {
        SearchTree { tree: Vec::new() }
    }
}

impl<V> SearchTree<V> {
    /// Whether the keys are in strictly increasing order.
    pub open spec fn wf(&self) -> bool {
        sorted_keys(self@)
    }

    /// An empty tree.
    pub fn new() -> (r: SearchTree<V>)
        ensures
            r@ == Seq::<(usize, V)>::empty(),
            r.wf(),
    {
        SearchTree { tree: Vec::new() }
    }

    /// Whether some entry has this key.
    pub fn contains_key(&self, key: usize) -> (r: bool)
        ensures
            r == (exists|i: int| 0 <= i < self@.len() && self@[i].0 == key),
    {
        let mut i: usize = 0;
        while i < self.tree.len()
            invariant
                i <= self@.len(),
                self@ == self.tree@,
                forall|j: int| 0 <= j < i ==> self@[j].0 != key,
            decreases self.tree.len() - i,
        {
            if self.tree[i].0 == key {
                return true;
            }
            i = i + 1;
        }
        false
    }

    /// Whether the tree has no entries.
    pub fn is_empty(&self) -> (r: bool)
        ensures
            r == (self@.len() == 0),
    {
        self.tree.len() == 0
    }

    /// The entries, in order of their keys.
    pub fn iter(&self) -> (r: &Vec<(usize, V)>)
        ensures
            r@ == self@,
    {
        &self.tree
    }

    /// The keys, in increasing order.
    pub fn keys(&self) -> (r: Vec<usize>)
        ensures
            r@ == self@.map_values(|e: (usize, V)| e.0),
    {
        let mut r: Vec<usize> = Vec::new();
        let mut i: usize = 0;
        while i < self.tree.len()
            invariant
                i <= self@.len(),
                self@ == self.tree@,
                r@ == self@.take(i as int).map_values(|e: (usize, V)| e.0),
            decreases self.tree.len() - i,
        {
            r.push(self.tree[i].0);
            proof {
                assert(self@.take(i + 1).map_values(|e: (usize, V)| e.0) =~= self@.take(
                    i as int,
                ).map_values(|e: (usize, V)| e.0).push(self@[i as int].0));
            }
            i = i + 1;
        }
        proof {
            assert(self@.take(self@.len() as int) =~= self@);
        }
        r
    }

    /// Sets the value under `key`, returning the value it replaces.
    pub fn insert(&mut self, key: usize, value: V) -> (r: Option<V>)
        requires
            old(self).wf(),
        ensures
            final(self)@ == seq_insert(old(self)@, key, value),
            final(self).wf(),
            r == seq_get(old(self)@, key),
    {
        let mut p: usize = 0;
        while p < self.tree.len() && self.tree[p].0 < key
            invariant
                p <= self@.len(),
                self@ == old(self)@,
                self@ == self.tree@,
                sorted_keys(self@),
                forall|i: int| 0 <= i < p ==> self@[i].0 < key,
            decreases self.tree.len() - p,
        {
            p = p + 1;
        }
        proof {
            lemma_insert_at(self@, key, value, p as int);
        }
        if p < self.tree.len() && self.tree[p].0 == key {
            let (_, replaced) = self.tree.remove(p);
            self.tree.insert(p, (key, value));
            proof {
                assert(self.tree@ =~= old(self)@.take(p as int).push((key, value)) + old(
                    self,
                )@.skip(p + 1));
            }
            Some(replaced)
        } else {
            self.tree.insert(p, (key, value));
            proof {
                assert(self.tree@ =~= old(self)@.take(p as int).push((key, value)) + old(
                    self,
                )@.skip(p as int));
            }
            None
        }
    }

    /// Removes every entry whose key is greater than `max_key`.
    pub fn trim(&mut self, max_key: usize)
        requires
            old(self).wf(),
        ensures
            final(self)@ == seq_trim(old(self)@, max_key),
            final(self).wf(),
    {
        while self.tree.len() > 0 && self.tree[self.tree.len() - 1].0 > max_key
            invariant
                self@ == self.tree@,
                seq_trim(old(self)@, max_key) == seq_trim(self@, max_key),
                sorted_keys(self@),
                self@.len() <= old(self)@.len(),
                self@ == old(self)@.take(self@.len() as int),
            decreases self.tree.len(),
        {
            self.tree.pop();
        }
    }

    /// The value at `key`, or else the value of the nearest key below it.
    pub fn search_left(&self, key: usize) -> (r: Option<&V>)
        ensures
            r matches Some(v) ==> last_at_most(self@, key as int) == Some(*v),
            r is None ==> last_at_most(self@, key as int) is None,
    {
        let mut i: usize = self.tree.len();
        proof {
            assert(self@.take(i as int) =~= self@);
        }
        while i > 0 && self.tree[i - 1].0 > key
            invariant
                i <= self@.len(),
                self@ == self.tree@,
                last_at_most(self@, key as int) == last_at_most(self@.take(i as int), key as int),
            decreases i,
        {
            proof {
                assert(self@.take(i as int).drop_last() =~= self@.take(i - 1));
            }
            i = i - 1;
        }
        if i == 0 {
            None
        } else {
            proof {
                assert(self@.take(i as int).last() == self@[i - 1]);
            }
            Some(&self.tree[i - 1].1)
        }
    }
}

impl<V: StyleValue> SearchTree<V> {
    /// Copies of the entries whose keys lie in the range, in order.
    pub fn range(&self, range: Bounds) -> (r: Vec<(usize, V)>)
        ensures
            r@ == seq_in_range(self@, range),
    {
        let mut r: Vec<(usize, V)> = Vec::new();
        let mut i: usize = 0;
        while i < self.tree.len()
            invariant
                i <= self@.len(),
                self@ == self.tree@,
                r@ == seq_in_range(self@.take(i as int), range),
            decreases self.tree.len() - i,
        {
            proof {
                assert(self@.take(i + 1).drop_last() =~= self@.take(i as int));
            }
            if range.contains(self.tree[i].0) {
                r.push((self.tree[i].0, self.tree[i].1.duplicate()));
            }
            i = i + 1;
        }
        proof {
            assert(self@.take(self@.len() as int) =~= self@);
        }
        r
    }

    /// Drops each entry whose value is the same as that of the entry
    /// before it.
    pub fn dedup(&mut self)
        requires
            old(self).wf(),
        ensures
            final(self)@ == seq_dedup(old(self)@),
            final(self).wf(),
    {
        let mut kept: Vec<(usize, V)> = Vec::new();
        let mut i: usize = 0;
        while i < self.tree.len()
            invariant
                i <= self@.len(),
                self@ == old(self)@,
                self@ == self.tree@,
                kept@ == seq_dedup(self@.take(i as int)),
            decreases self.tree.len() - i,
        {
            if i == 0 {
                kept.push((self.tree[0].0, self.tree[0].1.duplicate()));
                proof {
                    assert(self@.take(1) =~= seq![self@[0]]);
                    assert(kept@ =~= seq![self@[0]]);
                }
            } else {
                proof {
                    lemma_dedup_step(self@, i as int);
                }
                if !self.tree[i - 1].1.same(&self.tree[i].1) {
                    kept.push((self.tree[i].0, self.tree[i].1.duplicate()));
                }
            }
            i = i + 1;
        }
        proof {
            assert(self@.take(self@.len() as int) =~= self@);
            lemma_dedup_keys(self@);
        }
        self.tree = kept;
    }

    /// Copies the entries of `from` whose keys lie in the range into this
    /// tree, each under its key moved by `shift` where that is not negative
    /// and under its own key otherwise, then drops repeated values. Fails,
    /// with the entries before it copied, at a key that does not fit an
    /// `isize`.
    pub fn copy_with_shift(&mut self, from: &SearchTree<V>, range: Bounds, shift: isize) -> (r:
        Result<(), ShiftError>)
        requires
            old(self).wf(),
            from.wf(),
            forall|i: int|
                0 <= i < seq_in_range(from@, range).len() && #[trigger] seq_in_range(
                    from@,
                    range,
                )[i].0 <= isize::MAX ==> seq_in_range(from@, range)[i].0 + shift <= isize::MAX,
        ensures
            ({
                let (moved, complete) = shift_into(old(self)@, seq_in_range(from@, range), shift);
                &&& complete ==> r is Ok && final(self)@ == seq_dedup(moved)
                &&& !complete ==> r is Err && final(self)@ == moved
            }),
            final(self).wf(),
    {
        let items = from.range(range);
        let ghost start = self@;
        let mut i: usize = 0;
        proof {
            assert(items@.skip(0) =~= items@);
        }
        while i < items.len()
            invariant
                i <= items@.len(),
                items@ == seq_in_range(from@, range),
                start == old(self)@,
                self.wf(),
                shift_into(start, items@, shift) == shift_into(self@, items@.skip(i as int), shift),
                forall|j: int|
                    0 <= j < items@.len() && #[trigger] items@[j].0 <= isize::MAX ==> items@[j].0
                        + shift <= isize::MAX,
            decreases items.len() - i,
        {
            proof {
                assert(items@.skip(i as int)[0] == items@[i as int]);
                assert(items@.skip(i as int).drop_first() =~= items@.skip(i + 1));
            }
            let key = items[i].0;
            if key > isize::MAX as usize {
                proof {
                    assert(shift_into(self@, items@.skip(i as int), shift) == (self@, false));
                }
                return Err(ShiftError);
            }
            let moved: isize = key as isize + shift;
            if moved >= 0 {
                self.insert(moved as usize, items[i].1.duplicate());
            } else {
                self.insert(key, items[i].1.duplicate());
            }
            i = i + 1;
        }
        proof {
            assert(items@.skip(items@.len() as int) =~= Seq::<(usize, V)>::empty());
        }
        self.dedup();
        Ok(())
    }

    /// The entries from the range's start on, with keys moved so that the
    /// start becomes the origin, headed by the value in force at the start.
    /// An empty tree has no slice.
    pub fn slice(&self, range: Bounds) -> (r: Option<SearchTree<V>>)
        requires
            self.wf(),
        ensures
            match seq_slice(self@, range) {
                None => r is None,
                Some(t) => r matches Some(x) && x@ == t && x.wf(),
            },
            forall|m: int| keys_at_most(self@, m) ==> (match seq_slice(self@, range) {
                None => true,
                Some(t) => keys_at_most(t, m),
            }),
    {
        if self.tree.len() == 0 {
            return None;
        }
        let first_key = self.tree[0].0;
        let (origin_key, origin_value): (usize, V) = match range.start {
            Bound::Excluded(x) => match self.search_left(x) {
                Some(v) => (x, v.duplicate()),
                None => (first_key, self.tree[0].1.duplicate()),
            },
            Bound::Included(x) => {
                if x == 0 {
                    proof {
                        lemma_nothing_below_zero(self@);
                    }
                    (first_key, self.tree[0].1.duplicate())
                } else {
                    match self.search_left(x - 1) {
                        Some(v) => (x, v.duplicate()),
                        None => (first_key, self.tree[0].1.duplicate()),
                    }
                }
            },
            Bound::Unbounded => (first_key, self.tree[0].1.duplicate()),
        };
        proof {
            assert(slice_origin(self@, range) == (origin_key, origin_value));
        }
        let ghost top = self@.last().0 as int;
        proof {
            assert(keys_at_most(self@, top)) by {
                assert forall|i: int| 0 <= i < self@.len() implies (#[trigger] self@[i]).0 <= top by {
                    if i < self@.len() - 1 {
                        assert(self@[i].0 < self@[self@.len() - 1].0);
                    }
                }
            }
        }
        let mut tree: SearchTree<V> = SearchTree::new();
        tree.insert(first_key, origin_value);
        let items = self.range(range);
        proof {
            lemma_in_range_members(self@, range);
            assert(items@.skip(0) =~= items@);
            assert(keys_at_most(items@, top)) by {
                assert forall|j: int| 0 <= j < items@.len() implies (#[trigger] items@[j]).0 <= top by {
                    if j < items@.len() - 1 {
                        assert(items@[j].0 < items@[items@.len() - 1].0);
                    }
                }
            }
        }
        let ghost init = tree@;
        let mut i: usize = 0;
        while i < items.len()
            invariant
                i <= items@.len(),
                items@ == seq_in_range(self@, range),
                tree.wf(),
                insert_shifted(init, items@, origin_key) == insert_shifted(
                    tree@,
                    items@.skip(i as int),
                    origin_key,
                ),
                forall|j: int| 0 <= j < items@.len() ==> origin_key <= #[trigger] items@[j].0,
                keys_at_most(items@, top),
                keys_at_most(tree@, top),
            decreases items.len() - i,
        {
            proof {
                assert(items@.skip(i as int)[0] == items@[i as int]);
                assert(items@.skip(i as int).drop_first() =~= items@.skip(i + 1));
                lemma_insert_bounded(tree@, (items@[i as int].0 - origin_key) as usize, items@[i as int].1, top);
            }
            tree.insert(items[i].0 - origin_key, items[i].1.duplicate());
            i = i + 1;
        }
        proof {
            assert(items@.skip(items@.len() as int) =~= Seq::<(usize, V)>::empty());
            assert forall|m: int| keys_at_most(self@, m) implies keys_at_most(tree@, m) by {
                assert(self@[self@.len() - 1].0 <= m);
            }
        }
        Some(tree)
    }

    /// Copies every entry of `from` into this tree with `shift` added to its
    /// key, then drops repeated values.
    pub(crate) fn copy_shifted_up(&mut self, from: &SearchTree<V>, shift: usize)
        requires
            old(self).wf(),
            forall|i: int| 0 <= i < from@.len() ==> (#[trigger] from@[i]).0 + shift <= usize::MAX,
        ensures
            final(self)@ == seq_dedup(shift_up_into(old(self)@, from@, shift)),
            final(self).wf(),
    {
        let ghost start = self@;
        let mut i: usize = 0;
        proof {
            assert(from@.skip(0) =~= from@);
        }
        while i < from.tree.len()
            invariant
                i <= from@.len(),
                from@ == from.tree@,
                self.wf(),
                shift_up_into(start, from@, shift) == shift_up_into(self@, from@.skip(i as int), shift),
                forall|j: int| 0 <= j < from@.len() ==> (#[trigger] from@[j]).0 + shift <= usize::MAX,
            decreases from.tree.len() - i,
        {
            proof {
                assert(from@.skip(i as int)[0] == from@[i as int]);
                assert(from@.skip(i as int).drop_first() =~= from@.skip(i + 1));
            }
            self.insert(from.tree[i].0 + shift, from.tree[i].1.duplicate());
            i = i + 1;
        }
        proof {
            assert(from@.skip(from@.len() as int) =~= Seq::<(usize, V)>::empty());
        }
        self.dedup();
    }

    /// A copy of the tree.
    pub fn duplicate(&self) -> (r: SearchTree<V>)
        ensures
            r@ == self@,
    {
        let mut tree: Vec<(usize, V)> = Vec::new();
        let mut i: usize = 0;
        while i < self.tree.len()
            invariant
                i <= self@.len(),
                self@ == self.tree@,
                tree@ == self@.take(i as int),
            decreases self.tree.len() - i,
        {
            tree.push((self.tree[i].0, self.tree[i].1.duplicate()));
            proof {
                assert(tree@ =~= self@.take(i + 1));
            }
            i = i + 1;
        }
        proof {
            assert(self@.take(self@.len() as int) =~= self@);
        }
        SearchTree { tree }
    }
}

} // verus!
