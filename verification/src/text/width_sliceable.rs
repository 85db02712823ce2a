//! Slicing text objects by display width rather than by bytes.
use vstd::prelude::*;
use crate::outside::{display_width, grapheme_clusters, graphemes_of, joined, text_width};
use crate::text::offsets::{byte_len, lemma_byte_len_concat, str_len};
use crate::text::offsets::str_slice;
use crate::text::sliceable::{Bound, Bounds, Sliceable};

verus! {

/// Whether every column from `from` up to but not including `to` lies in the
/// range (true when there is none).
pub open spec fn columns_in(range: Bounds, from: int, to: int) -> bool {
    forall|w: int| from <= w < to ==> range.has(w)
}

/// Walks the graphemes, of widths `ws`, from index `i` on, at column `col`
/// and byte `at`: the byte where the first grapheme whose columns all lie in
/// the range starts, and the byte where, after that, the first grapheme
/// that does not fit starts.
pub open spec fn width_scan(
    gs: Seq<Seq<char>>,
    ws: Seq<usize>,
    range: Bounds,
    i: int,
    col: int,
    at: int,
    start: Option<int>,
) -> (Option<int>, Option<int>)
    decreases gs.len() - i,
{
    if i < 0 || i >= gs.len() {
        (start, None)
    } else {
        let gw = ws[i] as int;
        let fits = columns_in(range, col, col + gw);
        if fits && start is None {
            width_scan(gs, ws, range, i + 1, col + gw, at + byte_len(gs[i]), Some(at))
        } else if !fits && start is Some {
            (start, Some(at))
        } else {
            width_scan(gs, ws, range, i + 1, col + gw, at + byte_len(gs[i]), start)
        }
    }
}

/// The display width of each grapheme.
pub open spec fn cluster_widths(gs: Seq<Seq<char>>) -> Seq<usize> {
    gs.map_values(|g: Seq<char>| display_width(g) as usize)
}

/// The byte range of the graphemes, of the given widths, whose columns lie
/// in the width range: from the first that fits up to the first after it
/// that does not; none where no grapheme fits.
pub open spec fn scan_byte_range(gs: Seq<Seq<char>>, ws: Seq<usize>, range: Bounds) -> Option<Bounds> {
    match width_scan(gs, ws, range, 0, 0, 0, None) {
        (Some(s), Some(e)) => Some(
            Bounds { start: Bound::Included(s as usize), end: Bound::Excluded(e as usize) },
        ),
        (Some(s), None) => Some(Bounds { start: Bound::Included(s as usize), end: Bound::Unbounded }),
        _ => None,
    }
}

/// The byte range of the graphemes of a text whose columns lie in the width
/// range (see `scan_byte_range`).
pub open spec fn width_byte_range(text: Seq<char>, range: Bounds) -> Option<Bounds> {
    scan_byte_range(grapheme_clusters(text), cluster_widths(grapheme_clusters(text)), range)
}

/// The column where grapheme `i` starts, for graphemes of widths `ws`.
pub open spec fn col_at(ws: Seq<usize>, i: int) -> int
    decreases i,
{
    if i <= 0 {
        0
    } else {
        col_at(ws, i - 1) + ws[i - 1]
    }
}

/// The byte where grapheme `i` starts.
pub open spec fn off_at(gs: Seq<Seq<char>>, i: int) -> int
    decreases i,
{
    if i <= 0 {
        0
    } else {
        off_at(gs, i - 1) + byte_len(gs[i - 1])
    }
}

/// Whether every column of grapheme `i` lies in the range.
pub open spec fn grapheme_fits(ws: Seq<usize>, range: Bounds, i: int) -> bool {
    columns_in(range, col_at(ws, i), col_at(ws, i) + ws[i])
}

/// Whether the graphemes that fit in the range are exactly those from `a`
/// up to but not including `z`, and there is at least one.
pub open spec fn fitting_run(gs: Seq<Seq<char>>, ws: Seq<usize>, range: Bounds, a: int, z: int) -> bool {
    &&& 0 <= a < z <= gs.len()
    &&& forall|k: int| 0 <= k < gs.len() ==> (#[trigger] grapheme_fits(ws, range, k) <==> a <= k < z)
}

/// The byte range of the graphemes from `a` up to but not including `z`.
pub open spec fn run_bounds(gs: Seq<Seq<char>>, a: int, z: int) -> Bounds {
    Bounds {
        start: Bound::Included(off_at(gs, a) as usize),
        end: if z == gs.len() {
            Bound::Unbounded
        } else {
            Bound::Excluded(off_at(gs, z) as usize)
        },
    }
}

/// Graphemes at least one column wide start at increasing columns.
proof fn lemma_col_increasing(ws: Seq<usize>, j: int, k: int)
    requires
        0 <= j < k <= ws.len(),
        forall|i: int| 0 <= i < ws.len() ==> #[trigger] ws[i] >= 1,
    ensures
        col_at(ws, j) + ws[j] <= col_at(ws, k),
    decreases k - j,
{
    if j + 1 < k {
        lemma_col_increasing(ws, j, k - 1);
    }
}

/// Once a grapheme after one that fits does not fit, no later one fits.
proof fn lemma_fit_convex(ws: Seq<usize>, range: Bounds, a: int, z: int, k: int)
    requires
        0 <= a < z <= k < ws.len(),
        forall|i: int| 0 <= i < ws.len() ==> #[trigger] ws[i] >= 1,
        grapheme_fits(ws, range, a),
        !grapheme_fits(ws, range, z),
    ensures
        !grapheme_fits(ws, range, k),
{
    lemma_col_increasing(ws, a, z);
    if z < k {
        lemma_col_increasing(ws, z, k);
    }
    let ca = col_at(ws, a);
    let cz = col_at(ws, z);
    let c = choose|w: int| cz <= w < cz + ws[z] && !range.has(w);
    assert(range.has(ca));
    let last = col_at(ws, k) + ws[k] - 1;
    assert(last >= c);
    if range.has(last) {
        assert(range.has(c));
    }
}

/// Scanning on from grapheme `i` after the run that fits started at `a`.
proof fn lemma_scan_started(gs: Seq<Seq<char>>, ws: Seq<usize>, range: Bounds, a: int, i: int)
    requires
        gs.len() == ws.len(),
        forall|k: int| 0 <= k < ws.len() ==> #[trigger] ws[k] >= 1,
        0 <= a < i <= gs.len(),
        forall|k: int| 0 <= k < a ==> !#[trigger] grapheme_fits(ws, range, k),
        forall|k: int| a <= k < i ==> #[trigger] grapheme_fits(ws, range, k),
    ensures
        exists|z: int|
            fitting_run(gs, ws, range, a, z) && width_scan(
                gs,
                ws,
                range,
                i,
                col_at(ws, i),
                off_at(gs, i),
                Some(off_at(gs, a)),
            ) == (Some(off_at(gs, a)), if z == gs.len() {
                None
            } else {
                Some(off_at(gs, z))
            }),
    decreases gs.len() - i,
{
    let n = gs.len() as int;
    if i == n {
        assert(fitting_run(gs, ws, range, a, n));
    } else if grapheme_fits(ws, range, i) {
        lemma_scan_started(gs, ws, range, a, i + 1);
    } else {
        assert forall|k: int| 0 <= k < n implies (#[trigger] grapheme_fits(ws, range, k) <==> a <= k < i) by {
            if k >= i {
                lemma_fit_convex(ws, range, a, i, k);
            }
        }
        assert(fitting_run(gs, ws, range, a, i));
    }
}

/// Scanning on from grapheme `i` before any has fitted.
proof fn lemma_scan_unstarted(gs: Seq<Seq<char>>, ws: Seq<usize>, range: Bounds, i: int)
    requires
        gs.len() == ws.len(),
        forall|k: int| 0 <= k < ws.len() ==> #[trigger] ws[k] >= 1,
        0 <= i <= gs.len(),
        forall|k: int| 0 <= k < i ==> !#[trigger] grapheme_fits(ws, range, k),
    ensures
        (forall|k: int| 0 <= k < gs.len() ==> !#[trigger] grapheme_fits(ws, range, k)) ==> width_scan(
            gs,
            ws,
            range,
            i,
            col_at(ws, i),
            off_at(gs, i),
            None,
        ) == (None::<int>, None::<int>),
        (exists|k: int| 0 <= k < gs.len() && #[trigger] grapheme_fits(ws, range, k)) ==> exists|a: int, z: int|
            fitting_run(gs, ws, range, a, z) && width_scan(gs, ws, range, i, col_at(ws, i), off_at(gs, i), None)
                == (Some(off_at(gs, a)), if z == gs.len() {
                None
            } else {
                Some(off_at(gs, z))
            }),
    decreases gs.len() - i,
{
    let n = gs.len() as int;
    if i < n {
        if grapheme_fits(ws, range, i) {
            lemma_scan_started(gs, ws, range, i, i + 1);
        } else {
            lemma_scan_unstarted(gs, ws, range, i + 1);
        }
    }
}

/// Law: where every grapheme is at least one column wide, slicing by width
/// keeps exactly the whole graphemes whose columns all lie in the range:
/// none where no grapheme fits; else those that fit are one run, from `a`
/// up to `z`, and the byte range is theirs.
pub proof fn law_width_slice_whole_graphemes(gs: Seq<Seq<char>>, ws: Seq<usize>, range: Bounds)
    requires
        gs.len() == ws.len(),
        forall|k: int| 0 <= k < ws.len() ==> #[trigger] ws[k] >= 1,
    ensures
        scan_byte_range(gs, ws, range) is None <==> forall|k: int|
            0 <= k < gs.len() ==> !#[trigger] grapheme_fits(ws, range, k),
        scan_byte_range(gs, ws, range) matches Some(b) ==> exists|a: int, z: int|
            fitting_run(gs, ws, range, a, z) && b == run_bounds(gs, a, z),
{
    lemma_scan_unstarted(gs, ws, range, 0);
    if exists|k: int| 0 <= k < gs.len() && #[trigger] grapheme_fits(ws, range, k) {
        let (a, z) = choose|a: int, z: int|
            fitting_run(gs, ws, range, a, z) && width_scan(gs, ws, range, 0, col_at(ws, 0), off_at(gs, 0), None)
                == (Some(off_at(gs, a)), if z == gs.len() {
                None
            } else {
                Some(off_at(gs, z))
            });
        assert(grapheme_fits(ws, range, a));
        assert(scan_byte_range(gs, ws, range) == Some(run_bounds(gs, a, z)));
    }
}

/// Once a grapheme has fitted, every later one fits all columns too.
proof fn lemma_scan_all_columns(gs: Seq<Seq<char>>, ws: Seq<usize>, i: int, col: int, at: int, s: int)
    requires
        0 <= i,
    ensures
        width_scan(gs, ws, Bounds { start: Bound::Unbounded, end: Bound::Unbounded }, i, col, at, Some(s)) == (
            Some(s),
            None::<int>,
        ),
    decreases gs.len() - i,
{
    if i < gs.len() {
        let gw = ws[i] as int;
        lemma_scan_all_columns(gs, ws, i + 1, col + gw, at + byte_len(gs[i]), s);
    }
}

/// Slicing all columns of a text gives all of its bytes, or nothing where
/// it has no grapheme.
pub proof fn lemma_all_columns(text: Seq<char>)
    ensures
        grapheme_clusters(text).len() > 0 ==> width_byte_range(
            text,
            Bounds { start: Bound::Unbounded, end: Bound::Unbounded },
        ) == Some(Bounds { start: Bound::Included(0), end: Bound::Unbounded }),
        grapheme_clusters(text).len() == 0 ==> width_byte_range(
            text,
            Bounds { start: Bound::Unbounded, end: Bound::Unbounded },
        ) is None,
{
    let gs = grapheme_clusters(text);
    if gs.len() > 0 {
        let ws = cluster_widths(gs);
        lemma_scan_all_columns(gs, ws, 1, ws[0] as int, byte_len(gs[0]) as int, 0);
    }
}

proof fn lemma_columns_in(range: Bounds, from: int, to: int)
    requires
        from < to,
    ensures
        columns_in(range, from, to) == (range.has(from) && range.has(to - 1)),
{
    if range.has(from) && range.has(to - 1) {
        assert forall|w: int| from <= w < to implies range.has(w) by {}
    }
}

proof fn lemma_joined_prefix(gs: Seq<Seq<char>>, i: int)
    requires
        0 <= i < gs.len(),
    ensures
        joined(gs.take(i + 1)) == joined(gs.take(i)) + gs[i],
        byte_len(joined(gs.take(i + 1))) == byte_len(joined(gs.take(i))) + byte_len(gs[i]),
{
    assert(gs.take(i + 1).drop_last() =~= gs.take(i));
    lemma_byte_len_concat(joined(gs.take(i)), gs[i]);
}

proof fn lemma_joined_bytes_mono(gs: Seq<Seq<char>>, i: int)
    requires
        0 <= i <= gs.len(),
    ensures
        byte_len(joined(gs.take(i))) <= byte_len(joined(gs)),
    decreases gs.len() - i,
{
    if i < gs.len() {
        lemma_joined_prefix(gs, i);
        lemma_joined_bytes_mono(gs, i + 1);
    } else {
        assert(gs.take(i) =~= gs);
    }
}

/// Whether a column, which may lie past the largest `usize`, is in the range.
fn range_has_wide(range: &Bounds, w: u128) -> (r: bool)
    ensures
        r == range.has(w as int),
{
    let above = match range.start {
        Bound::Included(s) => (s as u128) <= w,
        Bound::Excluded(s) => (s as u128) < w,
        Bound::Unbounded => true,
    };
    let below = match range.end {
        Bound::Included(e) => w <= (e as u128),
        Bound::Excluded(e) => w < (e as u128),
        Bound::Unbounded => true,
    };
    above && below
}

/// The byte range of the graphemes, of the given widths, whose columns lie
/// in the width range, found grapheme by grapheme (see `scan_byte_range`).
pub fn scan_width_bounds(gs: &Vec<&str>, widths: &Vec<usize>, range: Bounds) -> (r: Option<Bounds>)
    requires
        gs@.len() == widths@.len(),
        byte_len(joined(gs.deep_view())) <= usize::MAX,
    ensures
        r == scan_byte_range(gs.deep_view(), widths@, range),
{
    let ghost g = gs.deep_view();
    let count = gs.len();
    let mut start: Option<usize> = None;
    let mut col: u128 = 0;
    let mut at: usize = 0;
    let mut i: usize = 0;
    proof {
        assert(g.take(0) =~= Seq::<Seq<char>>::empty());
        lemma_joined_bytes_mono(g, 0);
    }
    while i < gs.len()
        invariant
            i <= gs@.len(),
            gs@.len() == widths@.len(),
            count == gs@.len(),
            g == gs.deep_view(),
            byte_len(joined(g)) <= usize::MAX,
            at == byte_len(joined(g.take(i as int))),
            col <= (i as u128) * (usize::MAX as u128),
            width_scan(g, widths@, range, 0, 0, 0, None) == width_scan(
                g,
                widths@,
                range,
                i as int,
                col as int,
                at as int,
                match start {
                    Some(s) => Some(s as int),
                    None => None,
                },
            ),
            start matches Some(s) ==> s <= at,
        decreases gs.len() - i,
    {
        let piece: &str = gs[i];
        proof {
            assert(piece@ == g[i as int]);
            lemma_joined_prefix(g, i as int);
            lemma_joined_bytes_mono(g, i + 1);
        }
        let gw = widths[i];
        proof {
            assert(col + gw <= (i as u128 + 1) * (usize::MAX as u128)) by (nonlinear_arith)
                requires
                    col <= (i as u128) * (usize::MAX as u128),
                    gw <= usize::MAX,
            ;
            assert((i as u128 + 1) * (usize::MAX as u128) <= 0xFFFF_FFFF_FFFF_FFFF_FFFF_FFFF_FFFF_FFFFu128)
                by (nonlinear_arith)
                requires
                    i < usize::MAX,
                    usize::MAX <= 0xFFFF_FFFF_FFFF_FFFFu128,
            ;
        }
        let next_col: u128 = col + gw as u128;
        let fits: bool = if gw == 0 {
            true
        } else {
            proof {
                lemma_columns_in(range, col as int, next_col as int);
            }
            range_has_wide(&range, col) && range_has_wide(&range, next_col - 1)
        };
        proof {
            assert(fits == columns_in(range, col as int, col + gw));
        }
        let blen = str_len(piece);
        if fits && start.is_none() {
            start = Some(at);
        } else if !fits && start.is_some() {
            let s = start.unwrap();
            return Some(Bounds { start: Bound::Included(s), end: Bound::Excluded(at) });
        }
        col = next_col;
        at = at + blen;
        i = i + 1;
    }
    match start {
        Some(s) => Some(Bounds { start: Bound::Included(s), end: Bound::Unbounded }),
        None => None,
    }
}

/// The byte range of the part of a text whose columns lie in the width
/// range: the text's graphemes and their widths, scanned.
pub fn width_slice_bounds(text: &str, range: Bounds) -> (r: Option<Bounds>)
    ensures
        r == width_byte_range(text@, range),
{
    let total = str_len(text);
    let gs = graphemes_of(text);
    let ghost g = gs.deep_view();
    let mut widths: Vec<usize> = Vec::new();
    let mut i: usize = 0;
    while i < gs.len()
        invariant
            i <= gs@.len(),
            g == gs.deep_view(),
            g == grapheme_clusters(text@),
            widths@ == cluster_widths(g).take(i as int),
        decreases gs.len() - i,
    {
        proof {
            assert(gs[i as int]@ == g[i as int]);
        }
        let w = text_width(gs[i]);
        widths.push(w);
        proof {
            assert(widths@ =~= cluster_widths(g).take(i + 1));
        }
        i = i + 1;
    }
    proof {
        assert(cluster_widths(g).take(i as int) =~= cluster_widths(g));
    }
    scan_width_bounds(&gs, &widths, range)
}

/// Text objects that can be sliced by display width rather than by bytes,
/// which keeps what is cut out within a given terminal width.
pub trait WidthSliceable {
    /// What a slice is.
    type Output;

    /// Whether the object can be sliced; every object can, unless an
    /// implementation asks for its own well-formedness.
    open spec fn can_slice_width(&self, range: Bounds) -> bool {
        true
    }

    /// Slices the object by display columns: the graphemes whose columns
    /// all lie in the range, from the first that fits up to the first after
    /// it that does not; none where no grapheme fits.
    fn slice_width(&self, range: Bounds) -> Option<Self::Output>
        requires
            self.can_slice_width(range),
    ;
}

impl WidthSliceable for String {
    type Output = String;

    fn slice_width(&self, range: Bounds) -> (r: Option<String>)
        ensures
            match width_byte_range(self@, range) {
                Some(b) => match str_slice(self@, b) {
                    Some(t) => r matches Some(x) && x@ == t,
                    None => r is None,
                },
                None => r is None,
            },
    {
        match width_slice_bounds(self.as_str(), range) {
            Some(b) => self.slice(b),
            None => None,
        }
    }
}

} // verus!
