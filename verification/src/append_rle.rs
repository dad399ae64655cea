use vstd::prelude::*;

use smallvec::SmallVec;

use crate::rev_span::{lemma_append_concatenates, run_times, time_at, TimeSpanRev};
use crate::rle::{HasLength, MergableSpan};

verus! {

/// The items after pushing `item` onto the end of `items`, merging it into the last item
/// where that item can take it.
pub open spec fn rle_pushed<T: MergableSpan>(items: Seq<T>, item: T) -> Seq<T> {
    if items.len() > 0 && items.last().spec_can_append(&item) {
        items.update(items.len() - 1, items.last().spec_append(&item))
    } else {
        items.push(item)
    }
}

/// The items after pushing `item` onto the end of `items`, which is kept in reverse order:
/// `item` is merged onto the front of the last item where it fits there.
pub open spec fn rle_pushed_reversed<T: MergableSpan>(items: Seq<T>, item: T) -> Seq<T> {
    if items.len() > 0 && item.spec_can_append(&items.last()) {
        items.update(items.len() - 1, item.spec_append(&items.last()))
    } else {
        items.push(item)
    }
}

/// The times a list of runs walks, first run first.
pub open spec fn runs_times(items: Seq<TimeSpanRev>) -> Seq<int>
    decreases items.len(),
{
    if items.len() == 0 {
        Seq::empty()
    } else {
        runs_times(items.drop_last()) + run_times(items.last())
    }
}

/// The times a list kept in reverse order walks: last run first.
pub open spec fn runs_times_reversed(items: Seq<TimeSpanRev>) -> Seq<int>
    decreases items.len(),
{
    if items.len() == 0 {
        Seq::empty()
    } else {
        run_times(items.last()) + runs_times_reversed(items.drop_last())
    }
}

/// Every run of the list is valid and not empty.
pub open spec fn runs_valid(items: Seq<TimeSpanRev>) -> bool {
    forall|i: int| 0 <= i < items.len() ==> #[trigger] items[i].valid() && items[i].spec_len() >= 1
}

/// Joining two runs that fit walks the first's times and then the second's.
proof fn lemma_run_times_append(a: TimeSpanRev, b: TimeSpanRev)
    requires
        a.valid(),
        b.valid(),
        a.spec_len() >= 1,
        b.spec_len() >= 1,
        a.spec_can_append(&b),
    ensures
        run_times(a.spec_append(&b)) == run_times(a) + run_times(b),
{
    lemma_append_concatenates(a, b);
    assert(run_times(a.spec_append(&b)) =~= run_times(a) + run_times(b));
}

/// Merging does not change what a list of runs stands for: after a push, merged or not, the
/// list walks the times it walked before and then those of the pushed run.
pub proof fn lemma_push_rle_keeps_times(items: Seq<TimeSpanRev>, item: TimeSpanRev)
    requires
        runs_valid(items),
        item.valid(),
        item.spec_len() >= 1,
    ensures
        runs_valid(rle_pushed(items, item)),
        runs_times(rle_pushed(items, item)) == runs_times(items) + run_times(item),
{
    let pushed = rle_pushed(items, item);
    if items.len() > 0 && items.last().spec_can_append(&item) {
        let last = items.last();
        assert(items[items.len() - 1].valid());
        lemma_run_times_append(last, item);
        lemma_append_concatenates(last, item);
        assert(pushed.drop_last() =~= items.drop_last());
        assert(runs_times(pushed) =~= runs_times(items) + run_times(item));
    } else {
        assert(pushed.drop_last() =~= items);
    }
}

/// The same holds of a list kept in reverse order: after a push, it walks the pushed run's
/// times and then those it walked before.
pub proof fn lemma_push_reversed_rle_keeps_times(items: Seq<TimeSpanRev>, item: TimeSpanRev)
    requires
        runs_valid(items),
        item.valid(),
        item.spec_len() >= 1,
    ensures
        runs_valid(rle_pushed_reversed(items, item)),
        runs_times_reversed(rle_pushed_reversed(items, item)) == run_times(item)
            + runs_times_reversed(items),
{
    let pushed = rle_pushed_reversed(items, item);
    if items.len() > 0 && item.spec_can_append(&items.last()) {
        let last = items.last();
        assert(items[items.len() - 1].valid());
        lemma_run_times_append(item, last);
        lemma_append_concatenates(item, last);
        assert(pushed.drop_last() =~= items.drop_last());
        assert(runs_times_reversed(pushed) =~= run_times(item) + runs_times_reversed(items));
    } else {
        assert(pushed.drop_last() =~= items);
    }
}

/// A list of runs that merges each pushed run into the last one where it can.
pub trait AppendRle<T: MergableSpan>: Sized {
    /// The runs held, in order.
    spec fn rle_items(&self) -> Seq<T>;

    /// One more run can be added without the list's storage overflowing.
    spec fn rle_has_room(&self) -> bool;

    /// Pushes a run onto the end of the list. If it can be merged into the last run, that is
    /// done instead of adding it.
    ///
    /// Returns true if the run was merged into the previous last run, false if it was added.
    fn push_rle(&mut self, item: T) -> (merged: bool)
        requires
            old(self).rle_has_room(),
            item.valid(),
            old(self).rle_items().len() > 0 ==> old(self).rle_items().last().valid(),
        ensures
            merged == (old(self).rle_items().len() > 0 && old(
                self,
            ).rle_items().last().spec_can_append(&item)),
            final(self).rle_items() == rle_pushed(old(self).rle_items(), item),
    ;

    /// Pushes a run onto the end of a list kept in reverse order. If it can be merged onto the
    /// front of the last run, that is done instead of adding it.
    ///
    /// Returns true if the run was merged into the previous last run, false if it was added.
    fn push_reversed_rle(&mut self, item: T) -> (merged: bool)
        requires
            old(self).rle_has_room(),
            item.valid(),
            old(self).rle_items().len() > 0 ==> old(self).rle_items().last().valid(),
        ensures
            merged == (old(self).rle_items().len() > 0 && item.spec_can_append(
                &old(self).rle_items().last(),
            )),
            final(self).rle_items() == rle_pushed_reversed(old(self).rle_items(), item),
    ;
}

impl<T: MergableSpan> AppendRle<T> for Vec<T> {
    open spec fn rle_items(&self) -> Seq<T> {
        self@
    }

    open spec fn rle_has_room(&self) -> bool {
        true
    }

    fn push_rle(&mut self, item: T) -> (merged: bool) {
        if let Some(v) = self.last_mut() {
            if v.can_append(&item) {
                v.append(item);
                return true;
            }
        }
        self.push(item);
        false
    }

    fn push_reversed_rle(&mut self, item: T) -> (merged: bool) {
        if let Some(v) = self.last_mut() {
            if item.can_append(v) {
                v.prepend(item);
                return true;
            }
        }
        self.push(item);
        false
    }
}

/// A `SmallVec` of spans that keeps up to four of them inline.
///
/// The vector is held in a private field; what it holds is `span_smallvec_items`.
#[verifier::external_body]
pub struct SpanSmallVec {
    inner: SmallVec<[TimeSpanRev; 4]>,
}

/// The runs that a small vector of spans holds, in order.
pub uninterp spec fn span_smallvec_items(v: SpanSmallVec) -> Seq<TimeSpanRev>;

impl SpanSmallVec {
    /// Calls `SmallVec::new`, which makes an empty vector.
    #[verifier::external_body]
    pub fn new() -> (v: SpanSmallVec)
        ensures
            span_smallvec_items(v) == Seq::<TimeSpanRev>::empty(),
    {
        SpanSmallVec { inner: SmallVec::new() }
    }

    /// Calls `to_vec` on the vector's slice (`SmallVec` dereferences to `[T]`), which copies
    /// the items, in order, into a `Vec`.
    #[verifier::external_body]
    pub fn to_vec(&self) -> (r: Vec<TimeSpanRev>)
        ensures
            r@ == span_smallvec_items(*self),
    {
        self.inner.to_vec()
    }
}

/// Calls `last_mut` on the vector's slice (`SmallVec` dereferences to `[T]`): it gives no
/// reference when the vector is empty, and otherwise a reference to its last item, through
/// which that item, and only it, can be replaced.
#[verifier::external_body]
fn span_smallvec_last_mut(v: &mut SpanSmallVec) -> (res: Option<&mut TimeSpanRev>)
    ensures
        span_smallvec_items(*old(v)).len() == 0 ==> res.is_none() && span_smallvec_items(*final(v))
            == span_smallvec_items(*old(v)),
        span_smallvec_items(*old(v)).len() != 0 ==> res.is_some() && *res.unwrap()
            == span_smallvec_items(*old(v)).last() && span_smallvec_items(*final(v))
            == span_smallvec_items(*old(v)).update(
            span_smallvec_items(*old(v)).len() - 1,
            *final(res.unwrap()),
        ),
{
    v.inner.last_mut()
}

/// Calls `SmallVec::push`, which adds `value` after the last item. It panics with "capacity
/// overflow" when the next power of two above the new length does not fit in `usize`; the
/// bound below leaves that out. A failed allocation is not ruled out here, as for `Vec::push`.
#[verifier::external_body]
fn span_smallvec_push(v: &mut SpanSmallVec, value: TimeSpanRev)
    requires
        span_smallvec_items(*old(v)).len() <= usize::MAX / 2,
    ensures
        span_smallvec_items(*final(v)) == span_smallvec_items(*old(v)).push(value),
{
    v.inner.push(value)
}

impl AppendRle<TimeSpanRev> for SpanSmallVec {
    open spec fn rle_items(&self) -> Seq<TimeSpanRev> {
        span_smallvec_items(*self)
    }

    open spec fn rle_has_room(&self) -> bool {
        span_smallvec_items(*self).len() <= usize::MAX / 2
    }

    fn push_rle(&mut self, item: TimeSpanRev) -> (merged: bool) {
        if let Some(v) = span_smallvec_last_mut(self) {
            if v.can_append(&item) {
                v.append(item);
                return true;
            }
        }
        span_smallvec_push(self, item);
        false
    }

    fn push_reversed_rle(&mut self, item: TimeSpanRev) -> (merged: bool) {
        if let Some(v) = span_smallvec_last_mut(self) {
            if item.can_append(v) {
                v.prepend(item);
                return true;
            }
        }
        span_smallvec_push(self, item);
        false
    }
}

} // verus!
