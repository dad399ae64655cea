use vstd::prelude::*;

use vstd::std_specs::cmp::PartialEqSpec;

use crate::dtrange::TimeSpan;
use crate::rle::{HasLength, MergableSpan, SplitableSpan};

verus! {

/// A span of times that is walked either forwards (`1, 2, 3`) or backwards (`3, 2, 1`).
///
/// The inner span always runs forwards (`span.start <= span.end`); when `reversed` is set
/// the span is walked from its last time down to its first.
#[derive(Copy, Clone, Debug, Eq, Default)]
pub struct TimeSpanRev {
    /// The inner span.
    pub span: TimeSpan,
    /// If the span is `1..4`, the run is `1, 2, 3` when false and `3, 2, 1` when true.
    pub reversed: bool,
}

/// The time at `offset` in the walk of `r`.
pub open spec fn time_at(r: TimeSpanRev, offset: int) -> int {
    if r.reversed {
        r.span.end - offset - 1
    } else {
        r.span.start + offset
    }
}

/// The times a run walks, in order.
pub open spec fn run_times(r: TimeSpanRev) -> Seq<int> {
    Seq::new(r.spec_len(), |k: int| time_at(r, k))
}

/// Whether the span has at most one item (so its direction does not matter).
pub open spec fn short_span(s: TimeSpan) -> bool {
    s.start <= s.end && s.end - s.start <= 1
}

impl TimeSpanRev {
    /// The time found `offset` steps along the walk.
    pub fn time_at_offset(&self, offset: usize) -> (t: usize)
        requires
            self.reversed ==> offset < self.span.end,
            !self.reversed ==> self.span.start + offset <= usize::MAX,
        ensures
            t == time_at(*self, offset as int),
    {
        if self.reversed {
            self.span.end - offset - 1
        } else {
            self.span.start + offset
        }
    }

    /// The span of times walked between offsets `offset_start` (included) and `offset_end`
    /// (excluded).
    pub fn range(&self, offset_start: usize, offset_end: usize) -> (r: TimeSpan)
        requires
            offset_start <= offset_end,
            self.span.start + offset_start <= self.span.end,
            self.span.start + offset_end <= self.span.end,
        ensures
            r.start <= r.end,
            r.end - r.start == offset_end - offset_start,
            self.reversed ==> r == (TimeSpan {
                start: (self.span.end - offset_end) as usize,
                end: (self.span.end - offset_start) as usize,
            }),
            !self.reversed ==> r == (TimeSpan {
                start: (self.span.start + offset_start) as usize,
                end: (self.span.start + offset_end) as usize,
            }),
            forall|k: int|
                offset_start <= k < offset_end ==> r.start <= #[trigger] time_at(*self, k) < r.end,
    {
        if self.reversed {
            TimeSpan { start: self.span.end - offset_end, end: self.span.end - offset_start }
        } else {
            TimeSpan { start: self.span.start + offset_start, end: self.span.start + offset_end }
        }
    }
}

impl From<TimeSpan> for TimeSpanRev {
    fn from(target: TimeSpan) -> (r: Self) {
        TimeSpanRev { span: target, reversed: false }
    }
}

impl vstd::std_specs::convert::FromSpecImpl<TimeSpan> for TimeSpanRev {
    open spec fn obeys_from_spec() -> bool {
        true
    }

    open spec fn from_spec(target: TimeSpan) -> Self {
        TimeSpanRev { span: target, reversed: false }
    }
}

impl From<std::ops::Range<usize>> for TimeSpanRev {
    fn from(range: std::ops::Range<usize>) -> (r: Self) {
        TimeSpanRev { span: range.into(), reversed: false }
    }
}

impl vstd::std_specs::convert::FromSpecImpl<std::ops::Range<usize>> for TimeSpanRev {
    open spec fn obeys_from_spec() -> bool {
        true
    }

    open spec fn from_spec(range: std::ops::Range<usize>) -> Self {
        TimeSpanRev { span: TimeSpan { start: range.start, end: range.end }, reversed: false }
    }
}

impl PartialEq for TimeSpanRev {
    /// Two spans of at most one item are equal whatever their direction.
    fn eq(&self, other: &Self) -> (r: bool) {
        let short = self.span.start <= self.span.end && self.span.end - self.span.start <= 1;
        self.span == other.span && (self.reversed == other.reversed || short)
    }
}

impl vstd::std_specs::cmp::PartialEqSpecImpl for TimeSpanRev {
    open spec fn obeys_eq_spec() -> bool {
        true
    }

    open spec fn eq_spec(&self, other: &Self) -> bool {
        self.span == other.span && (self.reversed == other.reversed || short_span(self.span))
    }
}

impl HasLength for TimeSpanRev {
    open spec fn valid(&self) -> bool {
        self.span.start <= self.span.end
    }

    open spec fn spec_len(&self) -> nat {
        (self.span.end - self.span.start) as nat
    }

    fn len(&self) -> (r: usize) {
        self.span.len()
    }
}

impl SplitableSpan for TimeSpanRev {
    /// The first `at` items of the walk: the low end of a forward span, the high end of a
    /// reversed one.
    open spec fn spec_head(&self, at: nat) -> Self {
        if self.reversed {
            TimeSpanRev {
                span: TimeSpan { start: (self.span.end - at) as usize, end: self.span.end },
                reversed: true,
            }
        } else {
            TimeSpanRev {
                span: TimeSpan { start: self.span.start, end: (self.span.start + at) as usize },
                reversed: false,
            }
        }
    }

    open spec fn spec_tail(&self, at: nat) -> Self {
        if self.reversed {
            TimeSpanRev {
                span: TimeSpan { start: self.span.start, end: (self.span.end - at) as usize },
                reversed: true,
            }
        } else {
            TimeSpanRev {
                span: TimeSpan { start: (self.span.start + at) as usize, end: self.span.end },
                reversed: false,
            }
        }
    }

    fn truncate(&mut self, at: usize) -> (rest: Self) {
        let reversed = self.reversed;
        let len = self.len();
        let span = if reversed {
            self.span.truncate_keeping_right(len - at)
        } else {
            self.span.truncate(at)
        };
        TimeSpanRev { span, reversed }
    }

    fn truncate_keeping_right(&mut self, at: usize) -> (head: Self) {
        let mut other = *self;
        *self = other.truncate(at);
        other
    }

    fn split(self, at: usize) -> (parts: (Self, Self)) {
        let mut head = self;
        let rest = head.truncate(at);
        (head, rest)
    }
}

impl MergableSpan for TimeSpanRev {
    /// `other` continues the walk of `self`: forwards when both runs go (or may go) forwards
    /// and `other` starts where `self` ends, backwards when both go (or may go) backwards and
    /// `other` ends where `self` starts.
    open spec fn spec_can_append(&self, other: &Self) -> bool {
        let self_len_1 = self.spec_len() == 1;
        let other_len_1 = other.spec_len() == 1;
        ||| (self_len_1 || !self.reversed) && (other_len_1 || !other.reversed)
            && other.span.start == self.span.end
        ||| (self_len_1 || self.reversed) && (other_len_1 || other.reversed)
            && other.span.end == self.span.start
    }

    /// The joined run is reversed exactly when `other` starts below `self`.
    open spec fn spec_append(&self, other: &Self) -> Self {
        if other.span.start < self.span.start {
            TimeSpanRev {
                span: TimeSpan { start: other.span.start, end: self.span.end },
                reversed: true,
            }
        } else {
            TimeSpanRev {
                span: TimeSpan { start: self.span.start, end: other.span.end },
                reversed: false,
            }
        }
    }

    fn can_append(&self, other: &Self) -> (r: bool) {
        let self_len_1 = self.len() == 1;
        let other_len_1 = other.len() == 1;
        if (self_len_1 || !self.reversed) && (other_len_1 || !other.reversed)
            && other.span.start == self.span.end {
            return true;
        }
        if (self_len_1 || self.reversed) && (other_len_1 || other.reversed)
            && other.span.end == self.span.start {
            return true;
        }
        false
    }

    fn append(&mut self, other: Self) {
        self.reversed = other.span.start < self.span.start;
        if self.reversed {
            self.span.start = other.span.start;
        } else {
            self.span.end = other.span.end;
        }
    }

    fn prepend(&mut self, other: Self) {
        let mut joined = other;
        joined.append(*self);
        *self = joined;
    }
}

/// Cutting a run of at least two items at an inner offset gives two non-empty runs of the
/// right lengths, the first of which can take the second, and joining them gives back the
/// run, direction included.
pub proof fn lemma_split_then_append(x: TimeSpanRev, at: nat)
    requires
        x.valid(),
        0 < at < x.spec_len(),
    ensures
        x.spec_head(at).valid(),
        x.spec_tail(at).valid(),
        x.spec_head(at).spec_len() == at,
        x.spec_tail(at).spec_len() == x.spec_len() - at,
        x.spec_head(at).spec_can_append(&x.spec_tail(at)),
        x.spec_head(at).spec_append(&x.spec_tail(at)) == x,
{
}

/// Cutting a run does not change which time stands at which offset: the first part walks
/// the first `at` times of the run, the second part the rest.
pub proof fn lemma_split_keeps_times(x: TimeSpanRev, at: nat)
    requires
        x.valid(),
        at <= x.spec_len(),
    ensures
        forall|k: int| 0 <= k < at ==> #[trigger] time_at(x.spec_head(at), k) == time_at(x, k),
        forall|k: int|
            at <= k < x.spec_len() ==> #[trigger] time_at(x.spec_tail(at), k - at) == time_at(
                x,
                k,
            ),
{
}

/// Joining two non-empty runs that fit together gives a run that walks the times of the
/// first and then those of the second.
pub proof fn lemma_append_concatenates(a: TimeSpanRev, b: TimeSpanRev)
    requires
        a.valid(),
        b.valid(),
        a.spec_len() >= 1,
        b.spec_len() >= 1,
        a.spec_can_append(&b),
    ensures
        a.spec_append(&b).valid(),
        a.spec_append(&b).spec_len() == a.spec_len() + b.spec_len(),
        forall|k: int|
            0 <= k < a.spec_len() ==> #[trigger] time_at(a.spec_append(&b), k) == time_at(a, k),
        forall|k: int|
            a.spec_len() <= k < a.spec_len() + b.spec_len() ==> #[trigger] time_at(
                a.spec_append(&b),
                k,
            ) == time_at(b, k - a.spec_len()),
{
}

/// Two runs fit together exactly when their walks do: if the walk of `a` followed by the walk
/// of `b` is the walk of some single valid run `r`, then `b` can be joined onto `a`.
pub proof fn lemma_can_append_complete(a: TimeSpanRev, b: TimeSpanRev, r: TimeSpanRev)
    requires
        a.valid(),
        b.valid(),
        r.valid(),
        a.spec_len() >= 1,
        b.spec_len() >= 1,
        r.spec_len() == a.spec_len() + b.spec_len(),
        forall|k: int| 0 <= k < a.spec_len() ==> time_at(r, k) == #[trigger] time_at(a, k),
        forall|k: int|
            0 <= k < b.spec_len() ==> time_at(r, a.spec_len() + k) == #[trigger] time_at(b, k),
    ensures
        a.spec_can_append(&b),
{
    let la = a.spec_len() as int;
    let lb = b.spec_len() as int;
    assert(time_at(r, 0) == time_at(a, 0));
    assert(time_at(r, la - 1) == time_at(a, la - 1));
    assert(time_at(r, la) == time_at(b, 0));
    assert(time_at(r, la + lb - 1) == time_at(b, lb - 1));
    if la >= 2 {
        assert(time_at(r, 1) == time_at(a, 1));
    }
    if lb >= 2 {
        assert(time_at(r, la + 1) == time_at(b, 1));
    }
}

/// Equality of runs is equality of what they stand for: two valid runs are equal exactly
/// when they cover the same span and walk the same times in the same order; for non-empty
/// runs, exactly when they walk the same times.
pub proof fn lemma_eq_same_walk(a: TimeSpanRev, b: TimeSpanRev)
    requires
        a.valid(),
        b.valid(),
    ensures
        a.eq_spec(&b) <==> (a.span == b.span && run_times(a) == run_times(b)),
        a.spec_len() >= 1 && b.spec_len() >= 1 ==> (a.eq_spec(&b) <==> run_times(a) == run_times(
            b,
        )),
{
    let ta = run_times(a);
    let tb = run_times(b);
    if a.span == b.span && (a.reversed == b.reversed || short_span(a.span)) {
        assert(ta =~= tb);
    }
    if ta == tb && a.spec_len() >= 1 {
        assert(ta.len() == tb.len());
        assert(ta[0] == tb[0]);
        assert(ta[ta.len() - 1] == tb[tb.len() - 1]);
        if ta.len() >= 2 {
            assert(ta[1] == tb[1]);
        }
        assert(a.span == b.span);
    }
    if a.span == b.span && ta == tb && !short_span(a.span) {
        assert(ta[0] == tb[0]);
        assert(ta[1] == tb[1]);
    }
}

} // verus!
