use vstd::prelude::*;

use crate::rle::{HasLength, SplitableSpan};

verus! {

/// A half-open range of local times, `start..end`.
#[derive(Copy, Clone, Debug, PartialEq, Eq, Structural, Default)]
pub struct TimeSpan {
    pub start: usize,
    pub end: usize,
}

impl TimeSpan {
    /// The last time in the span.
    pub fn last(&self) -> (r: usize)
        requires
            self.start < self.end,
        ensures
            r == self.end - 1,
    {
        self.end - 1
    }
}

impl HasLength for TimeSpan {
    open spec fn valid(&self) -> bool {
        self.start <= self.end
    }

    open spec fn spec_len(&self) -> nat {
        (self.end - self.start) as nat
    }

    fn len(&self) -> (r: usize) {
        self.end - self.start
    }
}

impl SplitableSpan for TimeSpan {
    open spec fn spec_head(&self, at: nat) -> Self {
        TimeSpan { start: self.start, end: (self.start + at) as usize }
    }

    open spec fn spec_tail(&self, at: nat) -> Self {
        TimeSpan { start: (self.start + at) as usize, end: self.end }
    }

    fn truncate(&mut self, at: usize) -> (rest: Self) {
        let old_end = self.end;
        self.end = self.start + at;
        TimeSpan { start: self.end, end: old_end }
    }

    fn truncate_keeping_right(&mut self, at: usize) -> (head: Self) {
        let mut other = *self;
        *self = other.truncate(at);
        other
    }

    fn split(self, at: usize) -> (parts: (Self, Self)) {
        let mut head = self;
        let rest = head.truncate(at);
        (head, rest)
    }
}

impl From<std::ops::Range<usize>> for TimeSpan {
    fn from(range: std::ops::Range<usize>) -> (r: Self) {
        TimeSpan { start: range.start, end: range.end }
    }
}

impl vstd::std_specs::convert::FromSpecImpl<std::ops::Range<usize>> for TimeSpan {
    open spec fn obeys_from_spec() -> bool {
        true
    }

    open spec fn from_spec(range: std::ops::Range<usize>) -> Self {
        TimeSpan { start: range.start, end: range.end }
    }
}

} // verus!
