//! Half-open intervals of byte offsets within one line.

use vstd::prelude::*;
use crate::negative::{remove_span, within, NegativeRange};

verus! {

/// The half-open interval `[start, end)`. An interval whose two ends are
/// equal is empty and doubles as "not set yet".
#[derive(Clone, Copy, Debug, PartialEq, Eq, Structural)]
pub struct Range {
    pub start: usize,
    pub end: usize,
}

impl Range {
    /// Whether the interval holds no offset that `widen` would keep.
    pub open spec fn is_unset(self) -> bool {
        self.start == self.end
    }

    /// Membership of `index` in `[start, end)`.
    pub open spec fn spec_contains(self, index: usize) -> bool {
        self.start <= index < self.end
    }

    /// The interval that `widen` leaves behind.
    pub open spec fn spec_widen(self, start: usize, end: usize) -> Range {
        if self.is_unset() {
            Range { start, end }
        } else {
            Range {
                start: if self.start <= start { self.start } else { start },
                end: if self.end >= end { self.end } else { end },
            }
        }
    }

    /// Two intervals overlap when both are set and they share an offset.
    /// Intervals that merely touch do not overlap.
    pub open spec fn spec_overlaps(self, other: Range) -> bool {
        &&& !self.is_unset()
        &&& !other.is_unset()
        &&& self.start + 1 <= other.end
        &&& other.start + 1 <= self.end
    }

    /// What is left of the visible intervals `held` once this interval has
    /// been taken out; an unset interval takes nothing out.
    pub open spec fn spec_remove(self, held: Seq<Range>) -> Seq<Range> {
        if self.is_unset() {
            held
        } else {
            remove_span(held, self.start, self.end)
        }
    }

    pub fn new(start: usize, end: usize) -> (r: Range)
        ensures
            r == (Range { start, end }),
    {
        Range { start, end }
    }

    pub fn contains(&self, index: usize) -> (r: bool)
        ensures
            r == self.spec_contains(index),
    {
        self.start <= index && index < self.end
    }

    /// Grows the interval to cover `[start, end)` as well; an unset interval
    /// is replaced outright.
    pub fn widen(&mut self, start: usize, end: usize)
        ensures
            *final(self) == old(self).spec_widen(start, end),
    {
        if self.start == self.end {
            self.start = start;
            self.end = end;
            return;
        }
        if start < self.start {
            self.start = start;
        }
        if end > self.end {
            self.end = end;
        }
    }

    /// Takes this interval out of the visible part of the line, unless the
    /// interval is unset.
    pub fn remove(&self, negative: &mut NegativeRange)
        ensures
            final(negative)@ == self.spec_remove(old(negative)@),
            forall|bound: int|
                #[trigger] within(old(negative)@, bound) ==> within(final(negative)@, bound),
    {
        if self.start != self.end {
            negative.remove(self.start, self.end);
        }
    }

    pub fn overlaps(&self, other: &Range) -> (r: bool)
        ensures
            r == self.spec_overlaps(*other),
    {
        if self.start == self.end || other.start == other.end {
            false
        } else {
            self.start < other.end && other.start < self.end
        }
    }
}

} // verus!
