//! Finding the non-overlapping occurrences of a pattern in a text, from the
//! left, as `str::match_indices` does.
use vstd::prelude::*;
use crate::text::offsets::{
    byte_len, char_byte_len, chars_of, lemma_byte_len_prefix, lemma_byte_len_take, str_len,
};

verus! {

/// Whether the pattern occurs in the text at character index `i`.
pub open spec fn occurs_at(h: Seq<char>, p: Seq<char>, i: int) -> bool {
    0 <= i && i + p.len() <= h.len() && h.subrange(i, i + p.len()) == p
}

/// The first character index from `i` on where the pattern occurs.
pub open spec fn next_occurrence(h: Seq<char>, p: Seq<char>, i: int) -> Option<int>
    decreases h.len() + 1 - i,
{
    if i < 0 || i + p.len() > h.len() {
        None
    } else if occurs_at(h, p, i) {
        Some(i)
    } else {
        next_occurrence(h, p, i + 1)
    }
}

/// How far the search moves past an occurrence: the pattern's length, or
/// one character for an empty pattern.
pub open spec fn step_len(p: Seq<char>) -> int {
    if p.len() == 0 {
        1
    } else {
        p.len() as int
    }
}

pub proof fn lemma_next_occurrence(h: Seq<char>, p: Seq<char>, i: int)
    ensures
        next_occurrence(h, p, i) matches Some(j) ==> i <= j && j + p.len() <= h.len()
            && occurs_at(h, p, j) && forall|k: int| i <= k < j ==> !occurs_at(h, p, k),
    decreases h.len() + 1 - i,
{
    if !(i < 0 || i + p.len() > h.len()) && !occurs_at(h, p, i) {
        lemma_next_occurrence(h, p, i + 1);
    }
}

/// The character indices of the non-overlapping occurrences of the pattern
/// from `i` on, each search resuming past the previous occurrence.
pub open spec fn occurrences(h: Seq<char>, p: Seq<char>, i: int) -> Seq<int>
    decreases h.len() + 1 - i,
{
    match next_occurrence(h, p, i) {
        None => Seq::empty(),
        Some(j) => {
            proof {
                lemma_next_occurrence(h, p, i);
            }
            seq![j] + occurrences(h, p, j + step_len(p))
        },
    }
}

/// The byte offsets where each occurrence of the pattern starts and ends.
pub open spec fn literal_matches(h: Seq<char>, p: Seq<char>) -> Seq<(usize, usize)> {
    occurrences(h, p, 0).map_values(
        |j: int| (byte_len(h.take(j)) as usize, (byte_len(h.take(j)) + byte_len(p)) as usize),
    )
}

proof fn lemma_occurrences_skip(h: Seq<char>, p: Seq<char>, i: int)
    requires
        0 <= i,
        i + p.len() <= h.len(),
        !occurs_at(h, p, i),
    ensures
        occurrences(h, p, i) == occurrences(h, p, i + 1),
{
}

fn occurs_at_exec(h: &Vec<char>, p: &Vec<char>, i: usize) -> (r: bool)
    requires
        i + p.len() <= h.len(),
    ensures
        r == occurs_at(h@, p@, i as int),
{
    let mut k: usize = 0;
    while k < p.len()
        invariant
            k <= p.len(),
            i + p.len() <= h.len(),
            forall|m: int| 0 <= m < k ==> h@[i + m] == p@[m],
        decreases p.len() - k,
    {
        if h[i + k] != p[k] {
            proof {
                assert(h@.subrange(i as int, i + p@.len())[k as int] != p@[k as int]);
            }
            return false;
        }
        k = k + 1;
    }
    proof {
        assert(h@.subrange(i as int, i + p@.len()) =~= p@);
    }
    true
}

/// The character indices of the non-overlapping occurrences of the
/// pattern, from the left.
pub fn find_occurrences(h: &Vec<char>, p: &Vec<char>) -> (r: Vec<usize>)
    ensures
        r@.map_values(|j: usize| j as int) == occurrences(h@, p@, 0),
{
    let mut out: Vec<usize> = Vec::new();
    if p.len() > h.len() {
        return out;
    }
    let last = h.len() - p.len();
    let mut i: usize = 0;
    loop
        invariant_except_break
            occurrences(h@, p@, 0) == out@.map_values(|j: usize| j as int) + occurrences(
                h@,
                p@,
                i as int,
            ),
        invariant
            last == h@.len() - p@.len(),
            i <= last,
        ensures
            occurrences(h@, p@, 0) == out@.map_values(|j: usize| j as int),
        decreases last - i,
    {
        let step: usize = if p.len() == 0 {
            1
        } else {
            p.len()
        };
        if occurs_at_exec(h, p, i) {
            let ghost before = out@;
            out.push(i);
            proof {
                assert(out@.map_values(|j: usize| j as int) =~= before.map_values(|j: usize| j as int)
                    + seq![i as int]);
            }
            if last - i < step {
                proof {
                    assert(occurrences(h@, p@, i + step) =~= Seq::<int>::empty());
                    assert(out@.map_values(|j: usize| j as int) + Seq::<int>::empty() =~= out@.map_values(
                        |j: usize| j as int,
                    ));
                }
                break;
            }
            i = i + step;
        } else {
            proof {
                lemma_occurrences_skip(h@, p@, i as int);
            }
            if i == last {
                proof {
                    assert(occurrences(h@, p@, i + 1) =~= Seq::<int>::empty());
                    assert(out@.map_values(|j: usize| j as int) + Seq::<int>::empty() =~= out@.map_values(
                        |j: usize| j as int,
                    ));
                }
                break;
            }
            i = i + 1;
        }
    }
    out
}

/// The byte offset of each character index of the text, its end included.
fn prefix_offsets(h: &Vec<char>) -> (r: Vec<usize>)
    requires
        byte_len(h@) <= usize::MAX,
    ensures
        r@.len() == h@.len() + 1,
        forall|k: int| 0 <= k <= h@.len() ==> r@[k] == byte_len(h@.take(k)),
{
    let mut r: Vec<usize> = Vec::new();
    let mut at: usize = 0;
    r.push(0);
    proof {
        assert(h@.take(0) =~= Seq::<char>::empty());
    }
    let mut k: usize = 0;
    while k < h.len()
        invariant
            k <= h@.len(),
            byte_len(h@) <= usize::MAX,
            r@.len() == k + 1,
            at == byte_len(h@.take(k as int)),
            forall|m: int| 0 <= m <= k ==> r@[m] == byte_len(h@.take(m)),
        decreases h.len() - k,
    {
        proof {
            lemma_byte_len_take(h@, k as int);
            lemma_byte_len_prefix(h@, k + 1);
        }
        at = at + char_byte_len(h[k]);
        r.push(at);
        k = k + 1;
    }
    r
}

pub proof fn lemma_occurrence_bytes(h: Seq<char>, p: Seq<char>, j: int)
    requires
        occurs_at(h, p, j),
    ensures
        byte_len(h.take(j)) + byte_len(p) == byte_len(h.take(j + p.len())),
{
    crate::text::offsets::lemma_byte_len_concat(h.take(j), p);
    assert(h.take(j) + p =~= h.take(j + p.len()));
}

pub proof fn lemma_occurrences_in(h: Seq<char>, p: Seq<char>, i: int)
    ensures
        forall|m: int|
            0 <= m < occurrences(h, p, i).len() ==> occurs_at(h, p, #[trigger] occurrences(h, p, i)[m])
                && i <= occurrences(h, p, i)[m],
        forall|m: int|
            0 < m < occurrences(h, p, i).len() ==> occurrences(h, p, i)[m - 1] + step_len(p)
                <= #[trigger] occurrences(h, p, i)[m],
    decreases h.len() + 1 - i,
{
    lemma_next_occurrence(h, p, i);
    if let Some(j) = next_occurrence(h, p, i) {
        lemma_occurrences_in(h, p, j + step_len(p));
        let rest = occurrences(h, p, j + step_len(p));
        assert(occurrences(h, p, i) == seq![j] + rest);
        assert forall|m: int| 0 < m < occurrences(h, p, i).len() implies occurrences(h, p, i)[m - 1]
            + step_len(p) <= #[trigger] occurrences(h, p, i)[m] by {
            if m > 1 {
                assert(occurrences(h, p, i)[m - 1] == rest[m - 2]);
                assert(occurrences(h, p, i)[m] == rest[m - 1]);
            }
        }
    }
}

/// The byte offsets where each non-overlapping occurrence of the pattern
/// starts and ends, from the left (as `str::match_indices` gives them).
pub fn match_byte_ranges(haystack: &str, pattern: &str) -> (r: Vec<(usize, usize)>)
    ensures
        r@ == literal_matches(haystack@, pattern@),
{
    let _ = str_len(haystack);
    let _ = str_len(pattern);
    let h = chars_of(haystack);
    let p = chars_of(pattern);
    let found = find_occurrences(&h, &p);
    let offsets = prefix_offsets(&h);
    let plen = str_len(pattern);
    proof {
        lemma_occurrences_in(h@, p@, 0);
    }
    let mut out: Vec<(usize, usize)> = Vec::new();
    let mut m: usize = 0;
    while m < found.len()
        invariant
            m <= found@.len(),
            found@.map_values(|j: usize| j as int) == occurrences(h@, p@, 0),
            h@ == haystack@,
            p@ == pattern@,
            plen == byte_len(p@),
            offsets@.len() == h@.len() + 1,
            forall|k: int| 0 <= k <= h@.len() ==> offsets@[k] == byte_len(h@.take(k)),
            forall|q: int|
                0 <= q < occurrences(h@, p@, 0).len() ==> occurs_at(
                    h@,
                    p@,
                    #[trigger] occurrences(h@, p@, 0)[q],
                ) && 0 <= occurrences(h@, p@, 0)[q],
            byte_len(h@) <= usize::MAX,
            out@ == literal_matches(haystack@, pattern@).take(m as int),
        decreases found.len() - m,
    {
        let j = found[m];
        proof {
            assert(occurrences(h@, p@, 0)[m as int] == j as int);
            lemma_occurrence_bytes(h@, p@, j as int);
            crate::text::offsets::lemma_byte_len_prefix(h@, j + p@.len());
        }
        let start = offsets[j];
        out.push((start, start + plen));
        proof {
            assert(out@ =~= literal_matches(haystack@, pattern@).take(m + 1));
        }
        m = m + 1;
    }
    proof {
        assert(literal_matches(haystack@, pattern@).take(m as int) =~= literal_matches(
            haystack@,
            pattern@,
        ));
    }
    out
}

} // verus!
