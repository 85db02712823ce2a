//! Byte offsets into UTF-8 text, and slicing text by them.
use vstd::prelude::*;
use crate::text::sliceable::{Bound, Bounds};

verus! {

broadcast use vstd::string::group_string_axioms;

/// The number of bytes in the UTF-8 encoding of a character.
pub open spec fn char_len(c: char) -> nat {
    if (c as u32) <= 0x7F {
        1
    } else if (c as u32) <= 0x7FF {
        2
    } else if (c as u32) <= 0xFFFF {
        3
    } else {
        4
    }
}

/// The number of bytes in the UTF-8 encoding of a text.
pub open spec fn byte_len(s: Seq<char>) -> nat
    decreases s.len(),
{
    if s.len() == 0 {
        0
    } else {
        byte_len(s.drop_last()) + char_len(s.last())
    }
}

/// The index of the character at which byte offset `b` falls, where `b` is
/// a character boundary (the end of the text included).
pub open spec fn char_index(s: Seq<char>, b: int) -> Option<int>
    decreases s.len(),
{
    if b == byte_len(s) {
        Some(s.len() as int)
    } else if s.len() == 0 {
        None
    } else {
        char_index(s.drop_last(), b)
    }
}

/// The first byte offset that a range includes.
pub open spec fn range_low(range: Bounds) -> int {
    match range.start {
        Bound::Included(x) => x as int,
        Bound::Excluded(x) => x + 1,
        Bound::Unbounded => 0,
    }
}

/// The byte offset just past the end of a range, for a text of `len` bytes.
pub open spec fn range_high(range: Bounds, len: int) -> int {
    match range.end {
        Bound::Included(x) => x + 1,
        Bound::Excluded(x) => x as int,
        Bound::Unbounded => len,
    }
}

/// A range's start may not be the excluded maximum index, whose successor
/// does not exist.
pub open spec fn slicing_range(range: Bounds) -> bool {
    range.start != Bound::Excluded(usize::MAX)
}

/// The part of a text between two byte offsets of a range (like `str::get`):
/// none where an offset is not a character boundary or the start lies past
/// the end.
pub open spec fn str_slice(s: Seq<char>, range: Bounds) -> Option<Seq<char>> {
    match (char_index(s, range_low(range)), char_index(s, range_high(range, byte_len(s) as int))) {
        (Some(a), Some(b)) => if a <= b {
            Some(s.subrange(a, b))
        } else {
            None
        },
        _ => None,
    }
}

pub proof fn lemma_byte_len_take(s: Seq<char>, k: int)
    requires
        0 <= k < s.len(),
    ensures
        byte_len(s.take(k + 1)) == byte_len(s.take(k)) + char_len(s[k]),
        byte_len(s.take(k)) < byte_len(s.take(k + 1)),
{
    assert(s.take(k + 1).drop_last() =~= s.take(k));
}

pub proof fn lemma_byte_len_mono(s: Seq<char>, j: int, k: int)
    requires
        0 <= j <= k <= s.len(),
    ensures
        byte_len(s.take(j)) <= byte_len(s.take(k)),
        j < k ==> byte_len(s.take(j)) < byte_len(s.take(k)),
    decreases k - j,
{
    if j < k {
        lemma_byte_len_take(s, k - 1);
        lemma_byte_len_mono(s, j, k - 1);
    }
}

pub proof fn lemma_byte_len_prefix(s: Seq<char>, k: int)
    requires
        0 <= k <= s.len(),
    ensures
        byte_len(s.take(k)) <= byte_len(s),
        k < s.len() ==> byte_len(s.take(k)) < byte_len(s),
{
    lemma_byte_len_mono(s, k, s.len() as int);
    assert(s.take(s.len() as int) =~= s);
}

pub proof fn lemma_byte_len_concat(a: Seq<char>, b: Seq<char>)
    ensures
        byte_len(a + b) == byte_len(a) + byte_len(b),
    decreases b.len(),
{
    if b.len() == 0 {
        assert(a + b =~= a);
    } else {
        lemma_byte_len_concat(a, b.drop_last());
        assert((a + b).drop_last() =~= a + b.drop_last());
    }
}

pub proof fn lemma_char_index(s: Seq<char>, b: int, k: int)
    requires
        0 <= k <= s.len(),
    ensures
        char_index(s, b) == Some(k) <==> byte_len(s.take(k)) == b,
    decreases s.len(),
{
    assert(s.take(s.len() as int) =~= s);
    if k == s.len() {
        if s.len() > 0 {
            lemma_char_index_range(s.drop_last(), b);
        }
    } else {
        let t = s.drop_last();
        assert(t.take(k) =~= s.take(k));
        lemma_byte_len_prefix(s, k);
        lemma_char_index(t, b, k);
        if b == byte_len(s) {
            assert(byte_len(s.take(k)) < byte_len(s));
        }
    }
}

pub proof fn lemma_char_index_range(s: Seq<char>, b: int)
    ensures
        char_index(s, b) matches Some(k) ==> 0 <= k <= s.len() && byte_len(s.take(k)) == b,
    decreases s.len(),
{
    assert(s.take(s.len() as int) =~= s);
    if b != byte_len(s) && s.len() > 0 {
        let t = s.drop_last();
        lemma_char_index_range(t, b);
        if let Some(k) = char_index(t, b) {
            assert(t.take(k) =~= s.take(k));
        }
    }
}

/// Slicing all of a text, or all of it from its start, gives the text.
pub proof fn lemma_slice_whole(s: Seq<char>)
    ensures
        str_slice(s, Bounds { start: Bound::Unbounded, end: Bound::Unbounded }) == Some(s),
        str_slice(s, Bounds { start: Bound::Included(0), end: Bound::Unbounded }) == Some(s),
{
    assert(s.take(0) =~= Seq::<char>::empty());
    lemma_char_index(s, 0, 0);
    assert(s.subrange(0, s.len() as int) =~= s);
}

/// Calls `str::len`: the length in bytes of the string's UTF-8 encoding.
/// As std documents for every allocation, and so for every string slice, it
/// is at most `isize::MAX`; vstd's own contract for `str::len` gives the
/// length cast to `usize` with no such bound, which the offsets below need.
#[verifier::external_body]
pub fn str_len(s: &str) -> (r: usize)
    ensures
        r == byte_len(s@),
        r <= isize::MAX,
{
    s.len()
}

/// The number of bytes in the UTF-8 encoding of a character.
pub fn char_byte_len(c: char) -> (r: usize)
    ensures
        r == char_len(c),
{
    let v = c as u32;
    if v <= 0x7F {
        1
    } else if v <= 0x7FF {
        2
    } else if v <= 0xFFFF {
        3
    } else {
        4
    }
}

/// The characters of a string.
pub fn chars_of(s: &str) -> (r: Vec<char>)
    ensures
        r@ == s@,
{
    let n = s.unicode_len();
    let mut r: Vec<char> = Vec::new();
    let mut i: usize = 0;
    while i < n
        invariant
            n == s@.len(),
            i <= n,
            r@ == s@.take(i as int),
        decreases n - i,
    {
        r.push(s.get_char(i));
        proof {
            assert(s@.take(i + 1) =~= s@.take(i as int).push(s@[i as int]));
        }
        i = i + 1;
    }
    proof {
        assert(s@.take(n as int) =~= s@);
    }
    r
}

/// The character index at byte offset `b`, where `b` is a character
/// boundary of the text (its end included).
pub fn char_index_of(chars: &Vec<char>, b: usize) -> (r: Option<usize>)
    requires
        byte_len(chars@) <= usize::MAX,
    ensures
        r matches Some(k) ==> char_index(chars@, b as int) == Some(k as int),
        r is None ==> char_index(chars@, b as int) is None,
{
    let mut k: usize = 0;
    let mut at: usize = 0;
    while at < b && k < chars.len()
        invariant
            k <= chars@.len(),
            at == byte_len(chars@.take(k as int)),
            byte_len(chars@) <= usize::MAX,
            forall|j: int| 0 <= j < k ==> byte_len(chars@.take(j)) < b,
        decreases chars.len() - k,
    {
        proof {
            lemma_byte_len_take(chars@, k as int);
            lemma_byte_len_prefix(chars@, k + 1);
        }
        at = at + char_byte_len(chars[k]);
        k = k + 1;
    }
    proof {
        lemma_char_index(chars@, b as int, k as int);
        lemma_char_index_range(chars@, b as int);
    }
    if at == b {
        Some(k)
    } else {
        proof {
            if let Some(m) = char_index(chars@, b as int) {
                if m > k {
                    lemma_byte_len_mono(chars@, k as int, m);
                }
            }
        }
        None
    }
}

/// The part of a string between the byte offsets of a range, where both are
/// character boundaries and in order (like `str::get`).
pub fn slice_str<'a>(s: &'a str, range: Bounds) -> (r: Option<&'a str>)
    requires
        slicing_range(range),
    ensures
        match str_slice(s@, range) {
            Some(t) => r matches Some(x) && x@ == t,
            None => r is None,
        },
{
    let len = str_len(s);
    let chars = chars_of(s);
    let low: usize = match range.start {
        Bound::Included(x) => x,
        Bound::Excluded(x) => x + 1,
        Bound::Unbounded => 0,
    };
    let a = char_index_of(&chars, low);
    let b = match range.end {
        Bound::Included(x) => {
            if x == usize::MAX {
                proof {
                    lemma_char_index_range(s@, x + 1);
                    if let Some(k) = char_index(s@, x + 1) {
                        lemma_byte_len_prefix(s@, k);
                    }
                }
                None
            } else {
                char_index_of(&chars, x + 1)
            }
        },
        Bound::Excluded(x) => char_index_of(&chars, x),
        Bound::Unbounded => char_index_of(&chars, len),
    };
    match (a, b) {
        (Some(a), Some(b)) => {
            if a <= b {
                proof {
                    lemma_char_index_range(s@, range_low(range));
                    lemma_char_index_range(s@, range_high(range, byte_len(s@) as int));
                }
                Some(s.substring_char(a, b))
            } else {
                None
            }
        },
        _ => None,
    }
}

} // verus!
