//! The visible part of a line: what is left of `[0, line_length)` once the
//! excluded spans have been taken out.

use vstd::prelude::*;
use crate::range::Range;

verus! {

/// The offset from which a span that starts at `start` is taken out: one to
/// the left of the span, or zero when the span starts the line.
pub open spec fn cut_start(start: usize) -> usize {
    if start == 0 {
        0
    } else {
        (start - 1) as usize
    }
}

/// What is left of one held interval `r` when the span `[start, end)` is
/// taken out of it: at most one piece to the left and one to the right.
pub open spec fn remainders(r: Range, start: usize, end: usize) -> Seq<Range> {
    let cut = cut_start(start);
    let left = if cut > r.start {
        seq![Range { start: r.start, end: if cut <= r.end { cut } else { r.end } }]
    } else {
        Seq::<Range>::empty()
    };
    let right = if r.end > end {
        seq![Range { start: if end >= r.start { end } else { r.start }, end: r.end }]
    } else {
        Seq::<Range>::empty()
    };
    left + right
}

/// The held intervals after the span `[start, end)` has been taken out of
/// every one of them, in the order in which they were held.
pub open spec fn remove_span(held: Seq<Range>, start: usize, end: usize) -> Seq<Range>
    decreases held.len(),
{
    if held.len() == 0 {
        Seq::<Range>::empty()
    } else {
        remove_span(held.drop_last(), start, end) + remainders(held.last(), start, end)
    }
}

/// Every interval lies within `[0, bound]` and its start does not pass its end.
pub open spec fn within(held: Seq<Range>, bound: int) -> bool {
    forall|i: int| 0 <= i < held.len() ==> (#[trigger] held[i]).start <= held[i].end <= bound
}

/// The intervals come in ascending order and no two of them share an offset.
pub open spec fn ascending(held: Seq<Range>) -> bool {
    forall|i: int, j: int|
        0 <= i < j < held.len() ==> (#[trigger] held[i]).end <= (#[trigger] held[j]).start
}

/// Taking a span out keeps every interval inside the bound it was in.
pub proof fn lemma_remove_span_within(held: Seq<Range>, start: usize, end: usize, bound: int)
    requires
        within(held, bound),
    ensures
        within(remove_span(held, start, end), bound),
    decreases held.len(),
{
    if held.len() > 0 {
        lemma_remove_span_within(held.drop_last(), start, end, bound);
        let front = remove_span(held.drop_last(), start, end);
        let back = remainders(held.last(), start, end);
        assert(within(back, bound));
        assert forall|i: int| 0 <= i < (front + back).len() implies (#[trigger] (front + back)[i]).start
            <= (front + back)[i].end <= bound by {
            if i < front.len() {
                assert((front + back)[i] == front[i]);
            } else {
                assert((front + back)[i] == back[i - front.len()]);
            }
        }
    }
}

/// Every interval left by `remove_span` lies inside the span between the
/// first start and the last end of what was held.
proof fn lemma_remove_span_hull(held: Seq<Range>, start: usize, end: usize, bound: int, k: int)
    requires
        within(held, bound),
        ascending(held),
        held.len() > 0,
        0 <= k < remove_span(held, start, end).len(),
    ensures
        held[0].start <= remove_span(held, start, end)[k].start,
        remove_span(held, start, end)[k].end <= held.last().end,
    decreases held.len(),
{
    let front = remove_span(held.drop_last(), start, end);
    let back = remainders(held.last(), start, end);
    if k < front.len() {
        assert((front + back)[k] == front[k]);
        assert(held.drop_last().len() > 0);
        lemma_remove_span_hull(held.drop_last(), start, end, bound, k);
        assert(held.drop_last().last() == held[held.len() - 2]);
        assert(held.drop_last()[0] == held[0]);
    } else {
        assert((front + back)[k] == back[k - front.len()]);
        assert(held[0].end >= held[0].start);
        if held.len() > 1 {
            assert(held[0].end <= held.last().start);
        }
    }
}

/// Taking a span whose start does not pass its end out of intervals that are
/// in ascending order and disjoint leaves intervals that are in ascending
/// order and disjoint.
pub proof fn lemma_remove_span_ascending(held: Seq<Range>, start: usize, end: usize, bound: int)
    requires
        within(held, bound),
        ascending(held),
        start <= end,
    ensures
        ascending(remove_span(held, start, end)),
    decreases held.len(),
{
    if held.len() > 0 {
        let init = held.drop_last();
        lemma_remove_span_ascending(init, start, end, bound);
        let front = remove_span(init, start, end);
        let back = remainders(held.last(), start, end);
        let all = front + back;
        assert forall|i: int, j: int| 0 <= i < j < all.len() implies (#[trigger] all[i]).end <= (
        #[trigger] all[j]).start by {
            if j < front.len() {
                assert(all[i] == front[i] && all[j] == front[j]);
            } else if i < front.len() {
                assert(all[i] == front[i]);
                assert(all[j] == back[j - front.len()]);
                lemma_remove_span_hull(init, start, end, bound, i);
                assert(init.last() == held[held.len() - 2]);
                assert(held[held.len() - 2].end <= held.last().start);
            } else {
                assert(all[i] == back[i - front.len()]);
                assert(all[j] == back[j - front.len()]);
            }
        }
    }
}

/// Taking a span out of intervals held one after the other takes it out of
/// each part.
pub proof fn lemma_remove_span_concat(front: Seq<Range>, back: Seq<Range>, start: usize, end: usize)
    ensures
        remove_span(front + back, start, end) == remove_span(front, start, end) + remove_span(
            back,
            start,
            end,
        ),
    decreases back.len(),
{
    if back.len() == 0 {
        assert(front + back =~= front);
        assert(remove_span(front, start, end) + remove_span(back, start, end) =~= remove_span(
            front,
            start,
            end,
        ));
    } else {
        lemma_remove_span_concat(front, back.drop_last(), start, end);
        assert((front + back).drop_last() =~= front + back.drop_last());
        assert((front + back).last() == back.last());
        assert(remove_span(front, start, end) + (remove_span(back.drop_last(), start, end)
            + remainders(back.last(), start, end)) =~= remove_span(front, start, end)
            + remove_span(back.drop_last(), start, end) + remainders(back.last(), start, end));
    }
}

/// Taking out a span leaves as they are the intervals that end before the
/// offset from which the span is taken out.
pub proof fn lemma_remove_span_behind(held: Seq<Range>, start: usize, end: usize)
    requires
        start <= end,
        forall|i: int|
            0 <= i < held.len() ==> (#[trigger] held[i]).start < held[i].end <= cut_start(start),
    ensures
        remove_span(held, start, end) == held,
    decreases held.len(),
{
    if held.len() > 0 {
        let init = held.drop_last();
        assert forall|i: int| 0 <= i < init.len() implies (#[trigger] init[i]).start < init[i].end
            <= cut_start(start) by {
            assert(init[i] == held[i]);
        }
        lemma_remove_span_behind(init, start, end);
        let last = held[held.len() - 1];
        assert(remainders(last, start, end) =~= seq![last]);
        assert(init + seq![last] =~= held);
    }
}

/// The parts of a line that are still visible.
#[derive(Debug)]
pub struct NegativeRange {
    pub ranges: Vec<Range>,
}

impl View for NegativeRange {
    type V = Seq<Range>;

    open spec fn view(&self) -> Seq<Range> {
        self.ranges@
    }
}

impl NegativeRange {
    /// What holds of the visible part of a line as long as no span is taken
    /// out whose start passes its end: no interval's start passes its end,
    /// the intervals come in ascending order, and no two of them share an
    /// offset.
    pub open spec fn wf(&self) -> bool {
        within(self@, usize::MAX as int) && ascending(self@)
    }

    /// The whole line `[0, line_end)`, nothing taken out yet.
    pub fn new(line_end: usize) -> (r: NegativeRange)
        ensures
            r@ == seq![Range { start: 0, end: line_end }],
            within(r@, line_end as int),
            r.wf(),
    {
        let mut ranges: Vec<Range> = Vec::new();
        ranges.push(Range::new(0, line_end));
        NegativeRange { ranges }
    }

    /// Takes the span `[start, end)` out of every interval held.
    pub fn remove(&mut self, start: usize, end: usize)
        ensures
            final(self)@ == remove_span(old(self)@, start, end),
            forall|bound: int| #[trigger] within(old(self)@, bound) ==> within(final(self)@, bound),
            start <= end && old(self).wf() ==> final(self).wf(),
    {
        proof {
            assert forall|bound: int| #[trigger] within(old(self)@, bound) implies within(
                remove_span(old(self)@, start, end),
                bound,
            ) by {
                lemma_remove_span_within(old(self)@, start, end, bound);
            }
            if start <= end && old(self).wf() {
                lemma_remove_span_ascending(old(self)@, start, end, usize::MAX as int);
            }
        }
        let cut: usize = if start == 0 { 0 } else { start - 1 };
        let mut kept: Vec<Range> = Vec::new();
        let mut i: usize = 0;
        while i < self.ranges.len()
            invariant
                i <= self.ranges.len(),
                cut == cut_start(start),
                kept@ == remove_span(self.ranges@.take(i as int), start, end),
            decreases self.ranges.len() - i,
        {
            let r = self.ranges[i];
            proof {
                assert(self.ranges@.take(i + 1).drop_last() == self.ranges@.take(i as int));
                assert(self.ranges@.take(i + 1).last() == r);
            }
            let ghost before = kept@;
            if cut > r.start {
                kept.push(Range::new(r.start, if cut <= r.end { cut } else { r.end }));
            }
            if r.end > end {
                kept.push(Range::new(if end >= r.start { end } else { r.start }, r.end));
            }
            assert(kept@ == before + remainders(r, start, end));
            i += 1;
        }
        proof {
            assert(self.ranges@.take(i as int) == self.ranges@);
        }
        self.ranges = kept;
    }
}

} // verus!
