use vstd::prelude::*;

verus! {

/// Something that covers a run of consecutive items.
pub trait HasLength: Sized {
    /// The value describes a run whose length is defined.
    spec fn valid(&self) -> bool;

    /// The number of items in the run.
    spec fn spec_len(&self) -> nat;

    fn len(&self) -> (r: usize)
        requires
            self.valid(),
        ensures
            r as nat == self.spec_len(),
    ;
}

/// A run that can be cut in two at any offset.
pub trait SplitableSpan: HasLength {
    /// The first `at` items of the run.
    spec fn spec_head(&self, at: nat) -> Self;

    /// The run without its first `at` items.
    spec fn spec_tail(&self, at: nat) -> Self;

    /// Keeps the first `at` items in `self` and returns the rest.
    fn truncate(&mut self, at: usize) -> (rest: Self)
        requires
            old(self).valid(),
            at <= old(self).spec_len(),
        ensures
            *final(self) == old(self).spec_head(at as nat),
            rest == old(self).spec_tail(at as nat),
    ;

    /// Keeps the items from offset `at` on in `self` and returns the first `at` items.
    fn truncate_keeping_right(&mut self, at: usize) -> (head: Self)
        requires
            old(self).valid(),
            at <= old(self).spec_len(),
        ensures
            head == old(self).spec_head(at as nat),
            *final(self) == old(self).spec_tail(at as nat),
    ;

    /// Cuts the run in two at offset `at`.
    fn split(self, at: usize) -> (parts: (Self, Self))
        requires
            self.valid(),
            at <= self.spec_len(),
        ensures
            parts.0 == self.spec_head(at as nat),
            parts.1 == self.spec_tail(at as nat),
    ;
}

/// A run that can be joined with a following run into a single run.
pub trait MergableSpan: HasLength {
    /// `other` can be joined onto the end of `self`.
    spec fn spec_can_append(&self, other: &Self) -> bool;

    /// The run made of `self` followed by `other`.
    spec fn spec_append(&self, other: &Self) -> Self;

    fn can_append(&self, other: &Self) -> (r: bool)
        requires
            self.valid(),
            other.valid(),
        ensures
            r == self.spec_can_append(other),
    ;

    /// Joins `other` onto the end of `self`.
    fn append(&mut self, other: Self)
        requires
            old(self).valid(),
            other.valid(),
            old(self).spec_can_append(&other),
        ensures
            *final(self) == old(self).spec_append(&other),
    ;

    /// Joins `other` onto the front of `self`.
    fn prepend(&mut self, other: Self)
        requires
            old(self).valid(),
            other.valid(),
            other.spec_can_append(old(self)),
        ensures
            *final(self) == other.spec_append(old(self)),
    ;
}

} // verus!
