//! A box of text widgets laid out side by side in a given width.
use vstd::prelude::*;
use crate::text::painter::StyleValue;
use crate::text::pushable::Pushable;
use crate::text::spans::Spans;
use crate::text::width::{HasWidth, Width};
use crate::widget::text_widget::Fitable;
use crate::widget::truncatable::{no_text, push_opt};

verus! {

/// One pass over the widgets still to fit, as (index, width): those whose
/// width is at most the even share `space / n` fit; the others remain, in
/// order.
pub open spec fn fit_pass(todo: Seq<(usize, usize)>, space: int, n: int) -> (Seq<(usize, usize)>, Seq<(usize, usize)>)
    decreases todo.len(),
{
    if todo.len() == 0 {
        (Seq::empty(), Seq::empty())
    } else {
        let (fitted, rest) = fit_pass(todo.drop_last(), space, n);
        if todo.last().1 * n <= space {
            (fitted.push(todo.last()), rest)
        } else {
            (fitted, rest.push(todo.last()))
        }
    }
}

/// The sum of the widths.
pub open spec fn widths_total(s: Seq<(usize, usize)>) -> int
    decreases s.len(),
{
    if s.len() == 0 {
        0
    } else {
        widths_total(s.drop_last()) + s.last().1
    }
}

/// Each widget given its own width.
pub open spec fn assign_widths(alloc: Seq<usize>, items: Seq<(usize, usize)>) -> Seq<usize>
    decreases items.len(),
{
    if items.len() == 0 {
        alloc
    } else {
        assign_widths(alloc, items.drop_last()).update(items.last().0 as int, items.last().1)
    }
}

/// The share of `space` that the `j`th of `n` widgets gets: the whole part
/// of an even split, and one more column for the first `space % n`.
pub open spec fn share_of(space: int, n: int, j: int) -> int {
    space / n + if j < space % n {
        1int
    } else {
        0int
    }
}

/// Each of the widgets given its share of `space` split among `n`.
pub open spec fn assign_shares(alloc: Seq<usize>, items: Seq<(usize, usize)>, space: int, n: int) -> Seq<usize>
    decreases items.len(),
{
    if items.len() == 0 {
        alloc
    } else {
        assign_shares(alloc, items.drop_last(), space, n).update(
            items.last().0 as int,
            share_of(space, n, items.len() - 1) as usize,
        )
    }
}

/// Widths for the bounded widgets, pass by pass: those that fit their even
/// share of the space left get their own width, and the space left shrinks
/// by it; when none fits, the space left is split evenly among the rest.
/// Gives the widths and the space left.
pub open spec fn allocate(todo: Seq<(usize, usize)>, space: int, alloc: Seq<usize>) -> (Seq<usize>, int)
    decreases todo.len(),
{
    if todo.len() == 0 {
        (alloc, space)
    } else {
        let (fitted, rest) = fit_pass(todo, space, todo.len() as int);
        if fitted.len() == 0 {
            (assign_shares(alloc, todo, space, todo.len() as int), 0)
        } else {
            proof {
                lemma_fit_pass_len(todo, space, todo.len() as int);
            }
            allocate(rest, space - widths_total(fitted), assign_widths(alloc, fitted))
        }
    }
}

/// The widgets of bounded width, as (index, width), in order.
pub open spec fn bounded_items(ws: Seq<Width>) -> Seq<(usize, usize)>
    decreases ws.len(),
{
    if ws.len() == 0 {
        Seq::empty()
    } else {
        match ws.last() {
            Width::Bounded(w) => bounded_items(ws.drop_last()).push(((ws.len() - 1) as usize, w)),
            Width::Unbounded => bounded_items(ws.drop_last()),
        }
    }
}

/// The widgets of unbounded width, as (index, 0), in order.
pub open spec fn unbounded_items(ws: Seq<Width>) -> Seq<(usize, usize)>
    decreases ws.len(),
{
    if ws.len() == 0 {
        Seq::empty()
    } else {
        match ws.last() {
            Width::Bounded(_) => unbounded_items(ws.drop_last()),
            Width::Unbounded => unbounded_items(ws.drop_last()).push(((ws.len() - 1) as usize, 0usize)),
        }
    }
}

/// The width each widget is given in `width` columns: the bounded ones
/// first (see `allocate`), then the unbounded ones split what is left
/// evenly.
pub open spec fn hbox_widths(ws: Seq<Width>, width: usize) -> Seq<usize> {
    let (alloc, space) = allocate(bounded_items(ws), width as int, Seq::new(ws.len(), |i: int| 0usize));
    let inf = unbounded_items(ws);
    if inf.len() == 0 {
        alloc
    } else {
        assign_shares(alloc, inf, space, inf.len() as int)
    }
}

/// The widths of the widgets.
pub open spec fn widths_of<T: StyleValue, W: Fitable<T>>(elems: Seq<W>) -> Seq<Width> {
    elems.map_values(|e: W| e.spec_width())
}

/// The first `n` widgets truncated to their widths, joined in order; a
/// widget that gives nothing adds nothing.
pub open spec fn hbox_output<T: StyleValue, W: Fitable<T>>(elems: Seq<W>, widths: Seq<usize>, n: int) -> (
    Seq<char>,
    Seq<(usize, T)>,
)
    decreases n,
{
    if n <= 0 {
        no_text()
    } else {
        push_opt(hbox_output(elems, widths, n - 1), elems[n - 1].spec_fit(widths[n - 1]))
    }
}

/// A pass splits the widgets still to fit between those that fit and the
/// rest.
pub proof fn lemma_fit_pass_len(todo: Seq<(usize, usize)>, space: int, n: int)
    ensures
        fit_pass(todo, space, n).0.len() + fit_pass(todo, space, n).1.len() == todo.len(),
    decreases todo.len(),
{
    if todo.len() > 0 {
        lemma_fit_pass_len(todo.drop_last(), space, n);
    }
}

/// What a pass keeps: indices stay below a bound, and each widget that fits
/// has a width within its share.
pub proof fn lemma_fit_pass_facts(todo: Seq<(usize, usize)>, space: int, n: int, m: int)
    requires
        forall|j: int| 0 <= j < todo.len() ==> (#[trigger] todo[j]).0 < m,
    ensures
        forall|j: int|
            0 <= j < fit_pass(todo, space, n).0.len() ==> (#[trigger] fit_pass(todo, space, n).0[j]).0 < m
                && fit_pass(todo, space, n).0[j].1 * n <= space,
        forall|j: int|
            0 <= j < fit_pass(todo, space, n).1.len() ==> (#[trigger] fit_pass(todo, space, n).1[j]).0 < m,
    decreases todo.len(),
{
    if todo.len() > 0 {
        let t = todo.drop_last();
        assert forall|j: int| 0 <= j < t.len() implies (#[trigger] t[j]).0 < m by {
            assert(t[j] == todo[j]);
        }
        lemma_fit_pass_facts(t, space, n, m);
        let (f0, r0) = fit_pass(t, space, n);
        let (f, r) = fit_pass(todo, space, n);
        let last = todo.last();
        assert(last == todo[todo.len() - 1]);
        if last.1 * n <= space {
            assert(f == f0.push(last) && r == r0);
            assert forall|j: int| 0 <= j < f.len() implies (#[trigger] f[j]).0 < m && f[j].1 * n <= space by {
                if j < f0.len() {
                    assert(f[j] == f0[j]);
                }
            }
        } else {
            assert(f == f0 && r == r0.push(last));
            assert forall|j: int| 0 <= j < r.len() implies (#[trigger] r[j]).0 < m by {
                if j < r0.len() {
                    assert(r[j] == r0[j]);
                }
            }
        }
    }
}

/// The widths that fit their share add up to at most their number of
/// shares.
proof fn lemma_total_times(s: Seq<(usize, usize)>, space: int, n: int)
    requires
        n >= 0,
        forall|j: int| 0 <= j < s.len() ==> (#[trigger] s[j]).1 * n <= space,
    ensures
        widths_total(s) * n <= s.len() * space,
    decreases s.len(),
{
    if s.len() > 0 {
        let t = s.drop_last();
        assert forall|j: int| 0 <= j < t.len() implies (#[trigger] t[j]).1 * n <= space by {
            assert(t[j] == s[j]);
        }
        lemma_total_times(t, space, n);
        let a = widths_total(t);
        let b = s.last().1 as int;
        let k = t.len() as int;
        assert(b * n <= space);
        assert((a + b) * n <= (k + 1) * space) by (nonlinear_arith)
            requires
                a * n <= k * space,
                b * n <= space,
        ;
    }
}

/// The widths that fit in one pass add up to at most the space.
pub proof fn lemma_fitted_total(todo: Seq<(usize, usize)>, space: int, n: int)
    requires
        n == todo.len(),
        n > 0,
        space >= 0,
    ensures
        widths_total(fit_pass(todo, space, n).0) <= space,
{
    let fitted = fit_pass(todo, space, n).0;
    lemma_fit_pass_len(todo, space, n);
    lemma_fit_pass_facts(todo, space, n, usize::MAX as int + 1);
    lemma_total_times(fitted, space, n);
    let t = widths_total(fitted);
    let l = fitted.len() as int;
    assert(t <= space) by (nonlinear_arith)
        requires
            t * n <= l * space,
            l <= n,
            n > 0,
            space >= 0,
    ;
}

/// The widths of a prefix add up to no more than all of them.
pub proof fn lemma_total_prefix(s: Seq<(usize, usize)>, k: int)
    requires
        0 <= k <= s.len(),
    ensures
        widths_total(s.take(k)) <= widths_total(s),
        widths_total(s.take(k)) >= 0,
    decreases s.len() - k,
{
    if k < s.len() {
        lemma_total_prefix(s, k + 1);
        assert(s.take(k + 1).drop_last() =~= s.take(k));
    } else {
        assert(s.take(k) =~= s);
    }
    lemma_total_nonneg(s.take(k));
}

/// Widths add up to no less than zero.
pub proof fn lemma_total_nonneg(s: Seq<(usize, usize)>)
    ensures
        widths_total(s) >= 0,
    decreases s.len(),
{
    if s.len() > 0 {
        lemma_total_nonneg(s.drop_last());
    }
}

/// The share of the first widgets is one column more than the whole part,
/// which stays within the space.
proof fn lemma_share_fits(space: int, n: int)
    requires
        n > 0,
        space >= 0,
        space % n > 0,
    ensures
        space / n + 1 <= space,
{
    vstd::arithmetic::div_mod::lemma_fundamental_div_mod(space, n);
    let q = space / n;
    let r = space % n;
    assert(q >= 0) by {
        vstd::arithmetic::div_mod::lemma_div_pos_is_pos(space, n);
    }
    assert(q <= n * q) by (nonlinear_arith)
        requires
            n >= 1,
            q >= 0,
    ;
}

/// The width each widget of a box gets, from the widgets' widths and the
/// box's width (see `hbox_widths`).
pub fn hbox_allocate(ws_in: &Vec<Width>, width: usize) -> (r: Vec<usize>)
    ensures
        r@ == hbox_widths(ws_in@, width),
        r@.len() == ws_in@.len(),
{
        let n = ws_in.len();
        let ghost ws = ws_in@;
        let mut todo: Vec<(usize, usize)> = Vec::new();
        let mut inf: Vec<(usize, usize)> = Vec::new();
        let mut alloc: Vec<usize> = Vec::new();
        let mut i: usize = 0;
        while i < n
            invariant
                i <= n,
                n == ws_in@.len(),
                ws == ws_in@,
                todo@ == bounded_items(ws.take(i as int)),
                inf@ == unbounded_items(ws.take(i as int)),
                alloc@ == Seq::new(i as nat, |k: int| 0usize),
            decreases n - i,
        {
            proof {
                assert(ws.take(i + 1).drop_last() =~= ws.take(i as int));
            }
            match ws_in[i] {
                Width::Bounded(w) => todo.push((i, w)),
                Width::Unbounded => inf.push((i, 0)),
            }
            alloc.push(0);
            proof {
                assert(alloc@ =~= Seq::new((i + 1) as nat, |k: int| 0usize));
            }
            i = i + 1;
        }
        proof {
            assert(ws.take(n as int) =~= ws);
            lemma_items_below(ws);
        }
        let ghost goal = allocate(bounded_items(ws), width as int, Seq::new(n as nat, |k: int| 0usize));
        let mut space: usize = width;
        while todo.len() > 0
            invariant_except_break
                allocate(todo@, space as int, alloc@) == goal,
            invariant
                alloc@.len() == n,
                forall|j: int| 0 <= j < todo@.len() ==> (#[trigger] todo@[j]).0 < n,
            ensures
                goal == (alloc@, space as int),
            decreases todo.len(),
        {
            let to_fit = todo.len();
            let mut fitted: Vec<(usize, usize)> = Vec::new();
            let mut rest: Vec<(usize, usize)> = Vec::new();
            let mut j: usize = 0;
            while j < to_fit
                invariant
                    j <= to_fit,
                    to_fit == todo@.len(),
                    (fitted@, rest@) == fit_pass(todo@.take(j as int), space as int, to_fit as int),
                decreases to_fit - j,
            {
                proof {
                    assert(todo@.take(j + 1).drop_last() =~= todo@.take(j as int));
                }
                let wj = todo[j].1;
                assert((wj as int) * (to_fit as int) <= 0xffff_ffff_ffff_ffff * 0xffff_ffff_ffff_ffff)
                    by (nonlinear_arith)
                    requires
                        wj <= 0xffff_ffff_ffff_ffff,
                        to_fit <= 0xffff_ffff_ffff_ffff,
                        wj >= 0,
                        to_fit >= 0,
                ;
                if (wj as u128) * (to_fit as u128) <= (space as u128) {
                    fitted.push(todo[j]);
                } else {
                    rest.push(todo[j]);
                }
                j = j + 1;
            }
            proof {
                assert(todo@.take(to_fit as int) =~= todo@);
                lemma_fit_pass_len(todo@, space as int, to_fit as int);
                lemma_fit_pass_facts(todo@, space as int, to_fit as int, n as int);
            }
            if fitted.len() == 0 {
                let q = space / to_fit;
                let rem = space % to_fit;
                let ghost base = alloc@;
                let mut k: usize = 0;
                while k < to_fit
                    invariant
                        k <= to_fit,
                        to_fit == todo@.len(),
                        to_fit > 0,
                        q == space / to_fit,
                        rem == space % to_fit,
                        alloc@.len() == n,
                        forall|j: int| 0 <= j < todo@.len() ==> (#[trigger] todo@[j]).0 < n,
                        alloc@ == assign_shares(base, todo@.take(k as int), space as int, to_fit as int),
                    decreases to_fit - k,
                {
                    proof {
                        assert(todo@.take(k + 1).drop_last() =~= todo@.take(k as int));
                        if k < rem {
                            lemma_share_fits(space as int, to_fit as int);
                        }
                    }
                    let w = if k < rem {
                        q + 1
                    } else {
                        q
                    };
                    alloc.set(todo[k].0, w);
                    k = k + 1;
                }
                proof {
                    assert(todo@.take(to_fit as int) =~= todo@);
                }
                space = 0;
                break;
            } else {
                let ghost base = alloc@;
                let ghost sp0 = space as int;
                proof {
                    lemma_fitted_total(todo@, space as int, to_fit as int);
                }
                let mut k: usize = 0;
                while k < fitted.len()
                    invariant
                        k <= fitted@.len(),
                        alloc@.len() == n,
                        forall|j: int| 0 <= j < fitted@.len() ==> (#[trigger] fitted@[j]).0 < n,
                        widths_total(fitted@) <= sp0,
                        alloc@ == assign_widths(base, fitted@.take(k as int)),
                        space as int == sp0 - widths_total(fitted@.take(k as int)),
                    decreases fitted@.len() - k,
                {
                    proof {
                        assert(fitted@.take(k + 1).drop_last() =~= fitted@.take(k as int));
                        lemma_total_prefix(fitted@, k + 1);
                    }
                    alloc.set(fitted[k].0, fitted[k].1);
                    space = space - fitted[k].1;
                    k = k + 1;
                }
                proof {
                    assert(fitted@.take(fitted@.len() as int) =~= fitted@);
                }
                todo = rest;
            }
        }
        let ghost bounded_alloc = alloc@;
        if inf.len() > 0 {
            let count = inf.len();
            let q = space / count;
            let rem = space % count;
            let mut k: usize = 0;
            while k < count
                invariant
                    k <= count,
                    count == inf@.len(),
                    count > 0,
                    q == space / count,
                    rem == space % count,
                    alloc@.len() == n,
                    forall|j: int| 0 <= j < inf@.len() ==> (#[trigger] inf@[j]).0 < n,
                    alloc@ == assign_shares(bounded_alloc, inf@.take(k as int), space as int, count as int),
                decreases count - k,
            {
                proof {
                    assert(inf@.take(k + 1).drop_last() =~= inf@.take(k as int));
                    if k < rem {
                        lemma_share_fits(space as int, count as int);
                    }
                }
                let w = if k < rem {
                    q + 1
                } else {
                    q
                };
                alloc.set(inf[k].0, w);
                k = k + 1;
            }
            proof {
                assert(inf@.take(count as int) =~= inf@);
            }
        }
        proof {
            assert(alloc@ == hbox_widths(ws, width));
        }
        alloc
}

/// A box of text widgets laid out side by side.
pub struct HBox<'a, W> {
    elements: Vec<&'a W>,
}

impl<'a, W> View for HBox<'a, W> {
    type V = Seq<W>;

    /// The widgets, in order.
    closed spec fn view(&self) -> Seq<W> {
        self.elements@.map_values(|e: &'a W| *e)
    }
}

impl<'a, W> Default for HBox<'a, W> {
    fn default() -> (r: Self)
        ensures
            r@ == Seq::<W>::empty(),
    {
        HBox::new()
    }
}

impl<'a, W> HBox<'a, W> {
    /// An empty box.
    pub fn new() -> (r: Self)
        ensures
            r@ == Seq::<W>::empty(),
    {
        let r = HBox { elements: Vec::new() };
        proof {
            assert(r@ =~= Seq::<W>::empty());
        }
        r
    }

    /// Adds a widget after the others.
    pub fn push(&mut self, element: &'a W)
        ensures
            final(self)@ == old(self)@.push(*element),
    {
        self.elements.push(element);
        proof {
            assert(self@ =~= old(self)@.push(*element));
        }
    }

    /// Truncates the box to a width: each widget gets its width (see
    /// `hbox_widths`), and the widgets truncated to their widths are joined
    /// in order.
    pub fn truncate<T: StyleValue>(&self, width: usize) -> (r: Spans<T>)
        where
            W: Fitable<T>,
        requires
            forall|i: int| 0 <= i < self@.len() ==> (#[trigger] self@[i]).fit_ok(),
        ensures
            r@ == hbox_output(self@, hbox_widths(widths_of(self@), width), self@.len() as int),
            r.wf(),
    {
        let n = self.elements.len();
        let ghost elems = self@;
        let ghost ws = widths_of::<T, W>(elems);
        let mut measured: Vec<Width> = Vec::new();
        let mut i: usize = 0;
        while i < n
            invariant
                i <= n,
                n == self.elements@.len(),
                elems == self@,
                ws == widths_of::<T, W>(elems),
                measured@ == ws.take(i as int),
            decreases n - i,
        {
            proof {
                assert(elems[i as int] == *self.elements@[i as int]);
            }
            measured.push(self.elements[i].width());
            proof {
                assert(measured@ =~= ws.take(i + 1));
            }
            i = i + 1;
        }
        proof {
            assert(ws.take(n as int) =~= ws);
        }
        let alloc = hbox_allocate(&measured, width);
        let ghost widths = alloc@;
        let mut res: Spans<T> = Spans::default();
        let mut i: usize = 0;
        while i < n
            invariant
                i <= n,
                n == self.elements@.len(),
                elems == self@,
                alloc@ == widths,
                widths.len() == n,
                forall|i: int| 0 <= i < elems.len() ==> (#[trigger] elems[i]).fit_ok(),
                res.wf(),
                res@ == hbox_output(elems, widths, i as int),
            decreases n - i,
        {
            proof {
                assert(elems[i as int] == *self.elements@[i as int]);
            }
            match self.elements[i].truncate(alloc[i]) {
                Some(x) => res.push(&x),
                None => {},
            }
            i = i + 1;
        }
        res
    }
}

/// The indices of the bounded and of the unbounded widgets lie below their
/// number.
proof fn lemma_items_below(ws: Seq<Width>)
    ensures
        forall|j: int| 0 <= j < bounded_items(ws).len() ==> (#[trigger] bounded_items(ws)[j]).0 < ws.len(),
        forall|j: int| 0 <= j < unbounded_items(ws).len() ==> (#[trigger] unbounded_items(ws)[j]).0 < ws.len(),
    decreases ws.len(),
{
    if ws.len() > 0 {
        let v = ws.drop_last();
        lemma_items_below(v);
        let b0 = bounded_items(v);
        let u0 = unbounded_items(v);
        let b = bounded_items(ws);
        let u = unbounded_items(ws);
        assert forall|j: int| 0 <= j < b.len() implies (#[trigger] b[j]).0 < ws.len() by {
            if j < b0.len() {
                assert(b[j] == b0[j]);
            }
        }
        assert forall|j: int| 0 <= j < u.len() implies (#[trigger] u[j]).0 < ws.len() by {
            if j < u0.len() {
                assert(u[j] == u0[j]);
            }
        }
    }
}

/// The sum of the numbers.
pub open spec fn seq_sum(s: Seq<usize>) -> int
    decreases s.len(),
{
    if s.len() == 0 {
        0
    } else {
        seq_sum(s.drop_last()) + s.last()
    }
}

/// Whether the indices strictly increase.
pub open spec fn increasing(s: Seq<(usize, usize)>) -> bool {
    forall|i: int, j: int| 0 <= i < j < s.len() ==> s[i].0 < s[j].0
}

/// The shares of the first `k` of `n` widgets splitting `space`, added up.
pub open spec fn share_sum(space: int, n: int, k: int) -> int
    decreases k,
{
    if k <= 0 {
        0
    } else {
        share_sum(space, n, k - 1) + share_of(space, n, k - 1)
    }
}

/// What the allocation keeps true: the widths given so far and the space
/// left add up to the box's width; the widgets still to fit are bounded,
/// in order, and given nothing yet; each bounded widget is given at most its
/// width, each unbounded one nothing.
pub open spec fn alloc_inv(ws: Seq<Width>, width: int, todo: Seq<(usize, usize)>, space: int, alloc: Seq<usize>) -> bool {
    &&& alloc.len() == ws.len()
    &&& width <= usize::MAX
    &&& 0 <= space
    &&& seq_sum(alloc) + space == width
    &&& increasing(todo)
    &&& forall|j: int|
        0 <= j < todo.len() ==> (#[trigger] todo[j]).0 < ws.len() && ws[todo[j].0 as int] == Width::Bounded(
            todo[j].1,
        ) && alloc[todo[j].0 as int] == 0
    &&& forall|i: int|
        0 <= i < ws.len() ==> (#[trigger] ws[i] is Bounded ==> alloc[i] <= ws[i]->0) && (ws[i] is Unbounded
            ==> alloc[i] == 0)
}

proof fn lemma_sum_update(s: Seq<usize>, i: int, v: usize)
    requires
        0 <= i < s.len(),
    ensures
        seq_sum(s.update(i, v)) == seq_sum(s) - s[i] + v,
    decreases s.len(),
{
    let u = s.update(i, v);
    if i == s.len() - 1 {
        assert(u.drop_last() =~= s.drop_last());
    } else {
        assert(u.drop_last() =~= s.drop_last().update(i, v));
        lemma_sum_update(s.drop_last(), i, v);
    }
}

proof fn lemma_sum_zeros(n: nat)
    ensures
        seq_sum(Seq::new(n, |i: int| 0usize)) == 0,
    decreases n,
{
    if n > 0 {
        assert(Seq::new(n, |i: int| 0usize).drop_last() =~= Seq::new((n - 1) as nat, |i: int| 0usize));
        lemma_sum_zeros((n - 1) as nat);
    }
}

/// A property of every widget still to fit holds of those that fit and of
/// the rest.
proof fn lemma_fit_pass_all(
    todo: Seq<(usize, usize)>,
    space: int,
    n: int,
    p: spec_fn((usize, usize)) -> bool,
)
    requires
        forall|j: int| 0 <= j < todo.len() ==> p(#[trigger] todo[j]),
    ensures
        forall|j: int| 0 <= j < fit_pass(todo, space, n).0.len() ==> p(#[trigger] fit_pass(todo, space, n).0[j]),
        forall|j: int| 0 <= j < fit_pass(todo, space, n).1.len() ==> p(#[trigger] fit_pass(todo, space, n).1[j]),
    decreases todo.len(),
{
    if todo.len() > 0 {
        let t = todo.drop_last();
        assert forall|j: int| 0 <= j < t.len() implies p(#[trigger] t[j]) by {
            assert(t[j] == todo[j]);
        }
        lemma_fit_pass_all(t, space, n, p);
        let (f0, r0) = fit_pass(t, space, n);
        let (f, r) = fit_pass(todo, space, n);
        assert(p(todo[todo.len() - 1]));
        assert forall|j: int| 0 <= j < f.len() implies p(#[trigger] f[j]) by {
            if j < f0.len() {
                assert(f[j] == f0[j]);
            }
        }
        assert forall|j: int| 0 <= j < r.len() implies p(#[trigger] r[j]) by {
            if j < r0.len() {
                assert(r[j] == r0[j]);
            }
        }
    }
}

/// A pass keeps the widgets in order, and no widget both fits and remains;
/// each that remains is wider than its share.
proof fn lemma_fit_pass_split(todo: Seq<(usize, usize)>, space: int, n: int)
    requires
        increasing(todo),
    ensures
        increasing(fit_pass(todo, space, n).0),
        increasing(fit_pass(todo, space, n).1),
        forall|j: int, k: int|
            0 <= j < fit_pass(todo, space, n).0.len() && 0 <= k < fit_pass(todo, space, n).1.len() ==> (
            #[trigger] fit_pass(todo, space, n).0[j]).0 != (#[trigger] fit_pass(todo, space, n).1[k]).0,
        forall|k: int|
            0 <= k < fit_pass(todo, space, n).1.len() ==> (#[trigger] fit_pass(todo, space, n).1[k]).1 * n > space,
    decreases todo.len(),
{
    if todo.len() > 0 {
        let t = todo.drop_last();
        let last = todo[todo.len() - 1];
        assert(increasing(t));
        lemma_fit_pass_split(t, space, n);
        assert forall|j: int| 0 <= j < t.len() implies (|e: (usize, usize)| e.0 < last.0)(#[trigger] t[j]) by {
            assert(t[j] == todo[j]);
        }
        lemma_fit_pass_all(t, space, n, |e: (usize, usize)| e.0 < last.0);
        let (f0, r0) = fit_pass(t, space, n);
        let (f, r) = fit_pass(todo, space, n);
        if last.1 * n <= space {
            assert(f == f0.push(last) && r == r0);
            assert forall|i: int, j: int| 0 <= i < j < f.len() implies f[i].0 < f[j].0 by {
                assert(f[i] == f0[i]);
                if j < f0.len() {
                    assert(f[j] == f0[j]);
                } else {
                    assert((|e: (usize, usize)| e.0 < last.0)(f0[i]));
                }
            }
            assert forall|j: int, k: int| 0 <= j < f.len() && 0 <= k < r.len() implies (#[trigger] f[j]).0
                != (#[trigger] r[k]).0 by {
                if j < f0.len() {
                    assert(f[j] == f0[j]);
                } else {
                    assert((|e: (usize, usize)| e.0 < last.0)(r0[k]));
                }
            }
        } else {
            assert(f == f0 && r == r0.push(last));
            assert forall|i: int, j: int| 0 <= i < j < r.len() implies r[i].0 < r[j].0 by {
                assert(r[i] == r0[i]);
                if j < r0.len() {
                    assert(r[j] == r0[j]);
                } else {
                    assert((|e: (usize, usize)| e.0 < last.0)(r0[i]));
                }
            }
            assert forall|j: int, k: int| 0 <= j < f.len() && 0 <= k < r.len() implies (#[trigger] f[j]).0
                != (#[trigger] r[k]).0 by {
                if k < r0.len() {
                    assert(r[k] == r0[k]);
                } else {
                    assert((|e: (usize, usize)| e.0 < last.0)(f0[j]));
                }
            }
            assert forall|k: int| 0 <= k < r.len() implies (#[trigger] r[k]).1 * n > space by {
                if k < r0.len() {
                    assert(r[k] == r0[k]);
                }
            }
        }
    }
}

/// Giving widgets their own widths changes only their entries, each to its
/// width; where they had nothing, the sum grows by their widths.
proof fn lemma_assign_widths(alloc: Seq<usize>, items: Seq<(usize, usize)>)
    requires
        increasing(items),
        forall|j: int| 0 <= j < items.len() ==> (#[trigger] items[j]).0 < alloc.len(),
    ensures
        assign_widths(alloc, items).len() == alloc.len(),
        forall|i: int|
            0 <= i < alloc.len() && (forall|j: int| 0 <= j < items.len() ==> (#[trigger] items[j]).0 != i) ==> (
            #[trigger] assign_widths(alloc, items)[i]) == alloc[i],
        forall|j: int|
            0 <= j < items.len() ==> assign_widths(alloc, items)[(#[trigger] items[j]).0 as int] == items[j].1,
        (forall|j: int| 0 <= j < items.len() ==> alloc[(#[trigger] items[j]).0 as int] == 0) ==> seq_sum(
            assign_widths(alloc, items),
        ) == seq_sum(alloc) + widths_total(items),
    decreases items.len(),
{
    if items.len() > 0 {
        let t = items.drop_last();
        let last = items[items.len() - 1];
        assert(increasing(t));
        assert forall|j: int| 0 <= j < t.len() implies (#[trigger] t[j]).0 < alloc.len() by {
            assert(t[j] == items[j]);
        }
        lemma_assign_widths(alloc, t);
        let a0 = assign_widths(alloc, t);
        assert forall|j: int| 0 <= j < t.len() implies (#[trigger] t[j]).0 != last.0 by {
            assert(t[j] == items[j]);
        }
        assert(a0[last.0 as int] == alloc[last.0 as int]);
        assert forall|j: int| 0 <= j < items.len() implies assign_widths(alloc, items)[(#[trigger] items[j]).0 as int]
            == items[j].1 by {
            if j < t.len() {
                assert(items[j] == t[j]);
                assert(items[j].0 != last.0);
            }
        }
        if forall|j: int| 0 <= j < items.len() ==> alloc[(#[trigger] items[j]).0 as int] == 0 {
            assert forall|j: int| 0 <= j < t.len() implies alloc[(#[trigger] t[j]).0 as int] == 0 by {
                assert(t[j] == items[j]);
            }
            assert(alloc[items[items.len() - 1].0 as int] == 0);
            lemma_sum_update(a0, last.0 as int, last.1);
        }
    }
}

/// Giving widgets their shares changes only their entries, each to its
/// share; where they had nothing, the sum grows by the shares.
proof fn lemma_assign_shares(alloc: Seq<usize>, items: Seq<(usize, usize)>, space: int, n: int)
    requires
        increasing(items),
        forall|j: int| 0 <= j < items.len() ==> (#[trigger] items[j]).0 < alloc.len(),
    ensures
        assign_shares(alloc, items, space, n).len() == alloc.len(),
        forall|i: int|
            0 <= i < alloc.len() && (forall|j: int| 0 <= j < items.len() ==> (#[trigger] items[j]).0 != i) ==> (
            #[trigger] assign_shares(alloc, items, space, n)[i]) == alloc[i],
        forall|j: int|
            0 <= j < items.len() ==> assign_shares(alloc, items, space, n)[(#[trigger] items[j]).0 as int] == share_of(
                space,
                n,
                j,
            ) as usize,
        (forall|j: int| 0 <= j < items.len() ==> alloc[(#[trigger] items[j]).0 as int] == 0) && (forall|j: int|
            0 <= j < items.len() ==> 0 <= #[trigger] share_of(space, n, j) <= usize::MAX) ==> seq_sum(
            assign_shares(alloc, items, space, n),
        ) == seq_sum(alloc) + share_sum(space, n, items.len() as int),
    decreases items.len(),
{
    if items.len() > 0 {
        let t = items.drop_last();
        let k = items.len() - 1;
        let last = items[k];
        assert(increasing(t));
        assert forall|j: int| 0 <= j < t.len() implies (#[trigger] t[j]).0 < alloc.len() by {
            assert(t[j] == items[j]);
        }
        lemma_assign_shares(alloc, t, space, n);
        let a0 = assign_shares(alloc, t, space, n);
        assert forall|j: int| 0 <= j < t.len() implies (#[trigger] t[j]).0 != last.0 by {
            assert(t[j] == items[j]);
        }
        assert(a0[last.0 as int] == alloc[last.0 as int]);
        assert forall|j: int| 0 <= j < items.len() implies assign_shares(alloc, items, space, n)[(
        #[trigger] items[j]).0 as int] == share_of(space, n, j) as usize by {
            if j < t.len() {
                assert(items[j] == t[j]);
                assert(items[j].0 != last.0);
            }
        }
        if (forall|j: int| 0 <= j < items.len() ==> alloc[(#[trigger] items[j]).0 as int] == 0) && (forall|j: int|
            0 <= j < items.len() ==> 0 <= #[trigger] share_of(space, n, j) <= usize::MAX) {
            assert forall|j: int| 0 <= j < t.len() implies alloc[(#[trigger] t[j]).0 as int] == 0 by {
                assert(t[j] == items[j]);
            }
            assert(alloc[items[k].0 as int] == 0);
            assert(0 <= share_of(space, n, k) <= usize::MAX);
            lemma_sum_update(a0, last.0 as int, share_of(space, n, k) as usize);
        }
    }
}

/// The shares of all `n` widgets add up to the space split.
proof fn lemma_share_sum(space: int, n: int)
    requires
        n > 0,
        space >= 0,
    ensures
        share_sum(space, n, n) == space,
        forall|j: int| 0 <= j < n ==> 0 <= #[trigger] share_of(space, n, j) <= space,
{
    vstd::arithmetic::div_mod::lemma_fundamental_div_mod(space, n);
    vstd::arithmetic::div_mod::lemma_div_pos_is_pos(space, n);
    let q = space / n;
    let r = space % n;
    lemma_share_sum_closed(space, n, n);
    assert(n * q + r == space);
    assert forall|j: int| 0 <= j < n implies 0 <= #[trigger] share_of(space, n, j) <= space by {
        assert(q <= n * q) by (nonlinear_arith)
            requires
                n >= 1,
                q >= 0,
        ;
    }
}

proof fn lemma_share_sum_closed(space: int, n: int, k: int)
    requires
        n > 0,
        space >= 0,
        0 <= k <= n,
    ensures
        share_sum(space, n, k) == k * (space / n) + if k < space % n {
            k
        } else {
            space % n
        },
    decreases k,
{
    if k > 0 {
        lemma_share_sum_closed(space, n, k - 1);
        let q = space / n;
        let r = space % n;
        assert(k * q == (k - 1) * q + q) by (nonlinear_arith);
        assert(share_sum(space, n, k) == share_sum(space, n, k - 1) + share_of(space, n, k - 1));
        if k - 1 < r {
            assert(share_of(space, n, k - 1) == q + 1);
            assert(share_sum(space, n, k - 1) == (k - 1) * q + (k - 1));
            assert(share_sum(space, n, k) == k * q + k);
            assert(k <= r);
            if k < r {
                assert(share_sum(space, n, k) == k * (space / n) + k);
            } else {
                assert(share_sum(space, n, k) == k * (space / n) + r);
            }
        } else {
            assert(share_of(space, n, k - 1) == q);
            assert(share_sum(space, n, k - 1) == (k - 1) * q + r);
            assert(share_sum(space, n, k) == k * q + r);
            assert(share_sum(space, n, k) == k * (space / n) + r);
        }
    } else {
        assert(0 * (space / n) == 0);
    }
}

/// Sums of numbers are not negative.
proof fn lemma_sum_nonneg(s: Seq<usize>)
    ensures
        seq_sum(s) >= 0,
    decreases s.len(),
{
    if s.len() > 0 {
        lemma_sum_nonneg(s.drop_last());
    }
}

/// The widgets of bounded and of unbounded width come in order, each as
/// its index and (for bounded ones) its width.
proof fn lemma_items(ws: Seq<Width>)
    requires
        ws.len() <= usize::MAX,
    ensures
        increasing(bounded_items(ws)),
        increasing(unbounded_items(ws)),
        forall|j: int|
            0 <= j < bounded_items(ws).len() ==> (#[trigger] bounded_items(ws)[j]).0 < ws.len() && ws[bounded_items(
                ws,
            )[j].0 as int] == Width::Bounded(bounded_items(ws)[j].1),
        forall|j: int|
            0 <= j < unbounded_items(ws).len() ==> (#[trigger] unbounded_items(ws)[j]).0 < ws.len() && ws[unbounded_items(
                ws,
            )[j].0 as int] is Unbounded,
    decreases ws.len(),
{
    if ws.len() > 0 {
        let v = ws.drop_last();
        let last = (ws.len() - 1) as usize;
        assert(last == ws.len() - 1);
        lemma_items(v);
        let b0 = bounded_items(v);
        let u0 = unbounded_items(v);
        let b = bounded_items(ws);
        let u = unbounded_items(ws);
        assert forall|j: int| 0 <= j < b0.len() implies (#[trigger] b0[j]).0 < last && ws[b0[j].0 as int]
            == Width::Bounded(b0[j].1) by {
            assert(ws[b0[j].0 as int] == v[b0[j].0 as int]);
        }
        assert forall|j: int| 0 <= j < u0.len() implies (#[trigger] u0[j]).0 < last && ws[u0[j].0 as int] is Unbounded by {
            assert(ws[u0[j].0 as int] == v[u0[j].0 as int]);
        }
        match ws.last() {
            Width::Bounded(w) => {
                assert(b == b0.push((last, w)));
                assert(u == u0);
                assert forall|j: int| 0 <= j < b.len() implies (#[trigger] b[j]).0 < ws.len() && ws[b[j].0 as int]
                    == Width::Bounded(b[j].1) by {
                    if j < b0.len() {
                        assert(b[j] == b0[j]);
                    }
                }
                assert forall|i: int, j: int| 0 <= i < j < b.len() implies b[i].0 < b[j].0 by {
                    assert(b[i] == b0[i]);
                    if j < b0.len() {
                        assert(b[j] == b0[j]);
                    }
                }
            },
            Width::Unbounded => {
                assert(b == b0);
                assert(u == u0.push((last, 0usize)));
                assert forall|j: int| 0 <= j < u.len() implies (#[trigger] u[j]).0 < ws.len() && ws[u[j].0 as int] is Unbounded by {
                    if j < u0.len() {
                        assert(u[j] == u0[j]);
                    }
                }
                assert forall|i: int, j: int| 0 <= i < j < u.len() implies u[i].0 < u[j].0 by {
                    assert(u[i] == u0[i]);
                    if j < u0.len() {
                        assert(u[j] == u0[j]);
                    }
                }
            },
        }
    }
}

/// Each pass of the allocation keeps `alloc_inv`.
proof fn lemma_allocate(ws: Seq<Width>, width: int, todo: Seq<(usize, usize)>, space: int, alloc: Seq<usize>)
    requires
        alloc_inv(ws, width, todo, space, alloc),
    ensures
        alloc_inv(ws, width, Seq::empty(), allocate(todo, space, alloc).1, allocate(todo, space, alloc).0),
    decreases todo.len(),
{
    if todo.len() > 0 {
        let n = todo.len() as int;
        let (fitted, rest) = fit_pass(todo, space, n);
        lemma_fit_pass_len(todo, space, n);
        lemma_fit_pass_split(todo, space, n);
        lemma_fit_pass_facts(todo, space, n, ws.len() as int);
        let p = |e: (usize, usize)| e.0 < ws.len() && ws[e.0 as int] == Width::Bounded(e.1) && alloc[e.0 as int] == 0;
        assert forall|j: int| 0 <= j < todo.len() implies p(#[trigger] todo[j]) by {}
        lemma_fit_pass_all(todo, space, n, p);
        lemma_sum_nonneg(alloc);
        if fitted.len() == 0 {
            lemma_share_sum(space, n);
            assert forall|j: int| 0 <= j < todo.len() implies (#[trigger] todo[j]).0 < alloc.len() by {}
            lemma_assign_shares(alloc, todo, space, n);
            let a = assign_shares(alloc, todo, space, n);
            assert(rest =~= todo) by {
                assert(rest.len() == todo.len());
                lemma_fit_pass_order(todo, space, n);
            }
            assert forall|i: int| 0 <= i < ws.len() implies (#[trigger] ws[i] is Bounded ==> a[i] <= ws[i]->0) && (
            ws[i] is Unbounded ==> a[i] == 0) by {
                if exists|j: int| 0 <= j < todo.len() && (#[trigger] todo[j]).0 == i {
                    let j = choose|j: int| 0 <= j < todo.len() && (#[trigger] todo[j]).0 == i;
                    let w = todo[j].1;
                    assert(rest[j] == todo[j]);
                    assert(w * n > space);
                    let q = space / n;
                    vstd::arithmetic::div_mod::lemma_fundamental_div_mod(space, n);
                    assert(w * n > q * n) by (nonlinear_arith)
                        requires
                            w * n > space,
                            space == n * q + space % n,
                            space % n >= 0,
                    ;
                    assert(w > q) by (nonlinear_arith)
                        requires
                            w * n > q * n,
                            n > 0,
                    ;
                    assert(share_of(space, n, j) <= w) by {
                        if j < space % n {
                            assert(w * n > q * n + 0);
                            assert(w * n >= q * n + 1);
                        }
                    }
                }
            }
        } else {
            lemma_fitted_total(todo, space, n);
            assert forall|j: int| 0 <= j < fitted.len() implies (#[trigger] fitted[j]).0 < alloc.len() by {
                assert(p(fitted[j]));
            }
            lemma_assign_widths(alloc, fitted);
            let a = assign_widths(alloc, fitted);
            assert forall|j: int| 0 <= j < fitted.len() implies alloc[(#[trigger] fitted[j]).0 as int] == 0 by {
                assert(p(fitted[j]));
            }
            assert forall|j: int| 0 <= j < rest.len() implies (#[trigger] rest[j]).0 < ws.len() && ws[rest[j].0 as int]
                == Width::Bounded(rest[j].1) && a[rest[j].0 as int] == 0 by {
                assert(p(rest[j]));
                assert forall|k: int| 0 <= k < fitted.len() implies (#[trigger] fitted[k]).0 != rest[j].0 by {}
            }
            assert forall|i: int| 0 <= i < ws.len() implies (#[trigger] ws[i] is Bounded ==> a[i] <= ws[i]->0) && (
            ws[i] is Unbounded ==> a[i] == 0) by {
                if exists|j: int| 0 <= j < fitted.len() && (#[trigger] fitted[j]).0 == i {
                    let j = choose|j: int| 0 <= j < fitted.len() && (#[trigger] fitted[j]).0 == i;
                    assert(p(fitted[j]));
                }
            }
            lemma_total_nonneg(fitted);
            lemma_allocate(ws, width, rest, space - widths_total(fitted), a);
        }
    }
}

/// Where no widget fits, all remain, in order.
proof fn lemma_fit_pass_order(todo: Seq<(usize, usize)>, space: int, n: int)
    requires
        fit_pass(todo, space, n).0.len() == 0,
    ensures
        fit_pass(todo, space, n).1 == todo,
    decreases todo.len(),
{
    if todo.len() > 0 {
        let t = todo.drop_last();
        let (f0, r0) = fit_pass(t, space, n);
        if todo.last().1 * n <= space {
            assert(fit_pass(todo, space, n).0.len() == f0.len() + 1);
        } else {
            lemma_fit_pass_order(t, space, n);
            assert(r0.push(todo.last()) =~= todo);
        }
    }
}

/// Law: in a box of widgets given `width` columns, no bounded widget is
/// given more columns than its width, the columns given add up to at most
/// `width`, and to exactly `width` where some widget is unbounded.
pub proof fn law_hbox_widths(ws: Seq<Width>, width: usize)
    requires
        ws.len() <= usize::MAX,
    ensures
        hbox_widths(ws, width).len() == ws.len(),
        forall|i: int|
            0 <= i < ws.len() && (#[trigger] ws[i]) is Bounded ==> hbox_widths(ws, width)[i] <= ws[i]->0,
        seq_sum(hbox_widths(ws, width)) <= width,
        unbounded_items(ws).len() > 0 ==> seq_sum(hbox_widths(ws, width)) == width,
{
    let zeros = Seq::new(ws.len(), |i: int| 0usize);
    lemma_items(ws);
    lemma_sum_zeros(ws.len());
    let b = bounded_items(ws);
    assert(alloc_inv(ws, width as int, b, width as int, zeros));
    lemma_allocate(ws, width as int, b, width as int, zeros);
    let (alloc, space) = allocate(b, width as int, zeros);
    lemma_sum_nonneg(alloc);
    let inf = unbounded_items(ws);
    if inf.len() > 0 {
        let m = inf.len() as int;
        lemma_share_sum(space, m);
        assert forall|j: int| 0 <= j < inf.len() implies (#[trigger] inf[j]).0 < alloc.len() by {}
        lemma_assign_shares(alloc, inf, space, m);
        assert forall|j: int| 0 <= j < inf.len() implies alloc[(#[trigger] inf[j]).0 as int] == 0 by {}
        assert forall|j: int| 0 <= j < inf.len() implies 0 <= #[trigger] share_of(space, m, j) <= usize::MAX by {
            assert(share_of(space, m, j) <= space);
        }
        let a = assign_shares(alloc, inf, space, m);
        assert forall|i: int| 0 <= i < ws.len() && (#[trigger] ws[i]) is Bounded implies a[i] <= ws[i]->0 by {
            assert forall|j: int| 0 <= j < inf.len() implies (#[trigger] inf[j]).0 != i by {}
        }
    }
}

} // verus!
