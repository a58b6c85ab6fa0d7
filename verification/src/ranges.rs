//! The spans of one exclusion category (multi-line comments, or strings):
//! those still open, which may run on into the next line, and those opened
//! and closed within the current line.

use vstd::prelude::*;
use crate::negative::{ascending, lemma_remove_span_ascending, lemma_remove_span_within, remove_span, within, NegativeRange};
use crate::range::Range;

verus! {

/// What a `Ranges` holds: the starts of the open spans, most recently opened
/// last, and the closed spans in the order in which they were closed.
pub struct Spans {
    pub open: Seq<usize>,
    pub closed: Seq<Range>,
}

impl Spans {
    pub open spec fn empty() -> Spans {
        Spans { open: Seq::empty(), closed: Seq::empty() }
    }

    /// An open span covers everything from its start on; a closed span covers
    /// its interval.
    pub open spec fn contains(self, index: usize) -> bool {
        ||| exists|i: int| 0 <= i < self.open.len() && #[trigger] self.open[i] <= index
        ||| exists|i: int| 0 <= i < self.closed.len() && (#[trigger] self.closed[i]).spec_contains(index)
    }

    /// At a line break the closed spans are dropped and every open span goes
    /// on from the start of the new line.
    pub open spec fn next_line(self) -> Spans {
        Spans { open: Seq::new(self.open.len(), |i: int| 0usize), closed: Seq::empty() }
    }

    pub open spec fn open(self, start: usize) -> Spans {
        Spans { open: self.open.push(start), closed: self.closed }
    }

    /// Closes the span opened last, if there is one.
    pub open spec fn close(self, end: usize) -> Spans {
        if self.open.len() == 0 {
            self
        } else {
            Spans {
                open: self.open.drop_last(),
                closed: self.closed.push(Range { start: self.open.last(), end }),
            }
        }
    }

    /// What is left of `held` once every span has been taken out: the closed
    /// spans first, then the open ones, each of which runs to the end of the
    /// line.
    pub open spec fn remove(self, held: Seq<Range>) -> Seq<Range> {
        remove_open(remove_closed(held, self.closed), self.open)
    }
}

/// `held` with the closed spans taken out one after the other.
pub open spec fn remove_closed(held: Seq<Range>, closed: Seq<Range>) -> Seq<Range>
    decreases closed.len(),
{
    if closed.len() == 0 {
        held
    } else {
        closed.last().spec_remove(remove_closed(held, closed.drop_last()))
    }
}

/// `held` with everything from each open start on taken out.
pub open spec fn remove_open(held: Seq<Range>, open: Seq<usize>) -> Seq<Range>
    decreases open.len(),
{
    if open.len() == 0 {
        held
    } else {
        remove_span(remove_open(held, open.drop_last()), open.last(), usize::MAX)
    }
}

/// Taking closed spans whose starts do not pass their ends out of intervals
/// that lie within a bound, in ascending order and disjoint, leaves such
/// intervals.
pub proof fn lemma_remove_closed_ascending(held: Seq<Range>, closed: Seq<Range>, bound: int)
    requires
        within(held, bound),
        ascending(held),
        forall|i: int| 0 <= i < closed.len() ==> (#[trigger] closed[i]).start <= closed[i].end,
    ensures
        within(remove_closed(held, closed), bound),
        ascending(remove_closed(held, closed)),
    decreases closed.len(),
{
    if closed.len() > 0 {
        let init = closed.drop_last();
        assert forall|i: int| 0 <= i < init.len() implies (#[trigger] init[i]).start
            <= init[i].end by {
            assert(init[i] == closed[i]);
        }
        lemma_remove_closed_ascending(held, init, bound);
        let last = closed[closed.len() - 1];
        lemma_remove_span_within(remove_closed(held, init), last.start, last.end, bound);
        lemma_remove_span_ascending(remove_closed(held, init), last.start, last.end, bound);
    }
}

/// Taking open spans out of intervals that lie within a bound, in ascending
/// order and disjoint, leaves such intervals.
pub proof fn lemma_remove_open_ascending(held: Seq<Range>, open: Seq<usize>, bound: int)
    requires
        within(held, bound),
        ascending(held),
    ensures
        within(remove_open(held, open), bound),
        ascending(remove_open(held, open)),
    decreases open.len(),
{
    if open.len() > 0 {
        lemma_remove_open_ascending(held, open.drop_last(), bound);
        lemma_remove_span_within(remove_open(held, open.drop_last()), open.last(), usize::MAX, bound);
        lemma_remove_span_ascending(
            remove_open(held, open.drop_last()),
            open.last(),
            usize::MAX,
            bound,
        );
    }
}

/// The open and closed spans of one exclusion category.
#[derive(Debug)]
pub struct Ranges {
    pub open_ranges: Vec<usize>,
    pub closed_ranges: Vec<Range>,
}

impl View for Ranges {
    type V = Spans;

    open spec fn view(&self) -> Spans {
        Spans { open: self.open_ranges@, closed: self.closed_ranges@ }
    }
}

impl Ranges {
    pub fn empty() -> (r: Ranges)
        ensures
            r@ == Spans::empty(),
    {
        Ranges { open_ranges: Vec::new(), closed_ranges: Vec::new() }
    }

    pub fn contains(&self, index: usize) -> (r: bool)
        ensures
            r == self@.contains(index),
    {
        let mut i: usize = 0;
        while i < self.open_ranges.len()
            invariant
                i <= self.open_ranges.len(),
                forall|k: int| 0 <= k < i ==> self.open_ranges@[k] > index,
            decreases self.open_ranges.len() - i,
        {
            if self.open_ranges[i] <= index {
                assert(self@.open[i as int] <= index);
                return true;
            }
            i += 1;
        }
        let mut j: usize = 0;
        while j < self.closed_ranges.len()
            invariant
                j <= self.closed_ranges.len(),
                forall|k: int| 0 <= k < self.open_ranges.len() ==> self.open_ranges@[k] > index,
                forall|k: int| 0 <= k < j ==> !self.closed_ranges@[k].spec_contains(index),
            decreases self.closed_ranges.len() - j,
        {
            if self.closed_ranges[j].contains(index) {
                assert(self@.closed[j as int].spec_contains(index));
                return true;
            }
            j += 1;
        }
        false
    }

    /// Drops the closed spans and moves the start of every open span to the
    /// start of the line.
    pub fn next_line(&mut self)
        ensures
            final(self)@ == old(self)@.next_line(),
    {
        self.closed_ranges.clear();
        let mut i: usize = 0;
        while i < self.open_ranges.len()
            invariant
                i <= self.open_ranges.len(),
                self.open_ranges.len() == old(self).open_ranges.len(),
                self.closed_ranges@ == Seq::<Range>::empty(),
                forall|k: int| 0 <= k < i ==> self.open_ranges@[k] == 0,
            decreases self.open_ranges.len() - i,
        {
            self.open_ranges.set(i, 0);
            i += 1;
        }
        assert(self.open_ranges@ == old(self)@.next_line().open);
    }

    pub fn open(&mut self, start: usize)
        ensures
            final(self)@ == old(self)@.open(start),
    {
        self.open_ranges.push(start);
    }

    /// Closes the span opened last at `end`; without an open span nothing
    /// happens.
    pub fn close(&mut self, end: usize)
        ensures
            final(self)@ == old(self)@.close(end),
    {
        match self.open_ranges.pop() {
            Some(start) => {
                self.closed_ranges.push(Range::new(start, end));
                assert(self.open_ranges@ == old(self).open_ranges@.drop_last());
            },
            None => {},
        }
    }

    /// Takes every span, closed or open, out of the visible part of the line.
    pub fn remove(&self, negative: &mut NegativeRange)
        ensures
            final(negative)@ == self@.remove(old(negative)@),
            forall|bound: int|
                #[trigger] within(old(negative)@, bound) ==> within(final(negative)@, bound),
    {
        let mut i: usize = 0;
        while i < self.closed_ranges.len()
            invariant
                i <= self.closed_ranges.len(),
                negative@ == remove_closed(old(negative)@, self.closed_ranges@.take(i as int)),
                forall|bound: int|
                    #[trigger] within(old(negative)@, bound) ==> within(negative@, bound),
            decreases self.closed_ranges.len() - i,
        {
            proof {
                assert(self.closed_ranges@.take(i + 1).drop_last() == self.closed_ranges@.take(
                    i as int,
                ));
            }
            self.closed_ranges[i].remove(negative);
            i += 1;
        }
        assert(self.closed_ranges@.take(i as int) == self.closed_ranges@);
        let ghost cleared = negative@;
        let mut j: usize = 0;
        while j < self.open_ranges.len()
            invariant
                j <= self.open_ranges.len(),
                negative@ == remove_open(cleared, self.open_ranges@.take(j as int)),
                forall|bound: int|
                    #[trigger] within(old(negative)@, bound) ==> within(negative@, bound),
            decreases self.open_ranges.len() - j,
        {
            proof {
                assert(self.open_ranges@.take(j + 1).drop_last() == self.open_ranges@.take(
                    j as int,
                ));
            }
            negative.remove(self.open_ranges[j], usize::MAX);
            j += 1;
        }
        assert(self.open_ranges@.take(j as int) == self.open_ranges@);
    }
}

} // verus!
