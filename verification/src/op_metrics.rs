use vstd::prelude::*;

use crate::dtrange::TimeSpan;
use crate::rev_span::{lemma_append_concatenates, lemma_can_append_complete, lemma_split_keeps_times, time_at, TimeSpanRev};
use crate::rle::{HasLength, MergableSpan, SplitableSpan};

verus! {

/// Whether an operation inserts or deletes.
#[derive(Copy, Clone, Debug, PartialEq, Eq, Structural)]
pub enum ListOpKind {
    Ins,
    Del,
}

/// A run of operations of one kind: the positions they touch, walked forwards or backwards,
/// and where their characters are kept in the operation context, if they are kept.
#[derive(Copy, Clone, Debug)]
pub struct ListOpMetrics {
    pub loc: TimeSpanRev,
    pub kind: ListOpKind,
    pub content_pos: Option<TimeSpan>,
}

/// A run keyed by the local version of its first item.
#[derive(Copy, Clone, Debug)]
pub struct KVPair<V>(pub usize, pub V);

/// The characters that the operations inserted and deleted, kept one after the other.
#[derive(Clone, Debug)]
pub struct ListOperationCtx {
    pub ins_content: Vec<char>,
    pub del_content: Vec<char>,
}

impl ListOperationCtx {
    /// The characters kept for operations of the given kind.
    pub open spec fn content(self, kind: ListOpKind) -> Seq<char> {
        match kind {
            ListOpKind::Ins => self.ins_content@,
            ListOpKind::Del => self.del_content@,
        }
    }
}

impl HasLength for ListOpMetrics {
    /// A run is non-empty, and its kept characters, where there are some, are as many as its
    /// items.
    open spec fn valid(&self) -> bool {
        &&& self.loc.valid()
        &&& self.loc.spec_len() >= 1
        &&& match self.content_pos {
            Some(c) => c.valid() && c.spec_len() == self.loc.spec_len(),
            None => true,
        }
    }

    open spec fn spec_len(&self) -> nat {
        self.loc.spec_len()
    }

    fn len(&self) -> (r: usize) {
        self.loc.len()
    }
}

impl SplitableSpan for ListOpMetrics {
    open spec fn spec_head(&self, at: nat) -> Self {
        ListOpMetrics {
            loc: self.loc.spec_head(at),
            kind: self.kind,
            content_pos: match self.content_pos {
                Some(c) => Some(c.spec_head(at)),
                None => None,
            },
        }
    }

    open spec fn spec_tail(&self, at: nat) -> Self {
        ListOpMetrics {
            loc: self.loc.spec_tail(at),
            kind: self.kind,
            content_pos: match self.content_pos {
                Some(c) => Some(c.spec_tail(at)),
                None => None,
            },
        }
    }

    fn truncate(&mut self, at: usize) -> (rest: Self) {
        let loc = self.loc.truncate(at);
        let content_pos = match &mut self.content_pos {
            Some(c) => Some(c.truncate(at)),
            None => None,
        };
        ListOpMetrics { loc, kind: self.kind, content_pos }
    }

    fn truncate_keeping_right(&mut self, at: usize) -> (head: Self) {
        let mut other = *self;
        *self = other.truncate(at);
        other
    }

    fn split(self, at: usize) -> (parts: (Self, Self)) {
        let mut head = self;
        let rest = head.truncate(at);
        (head, rest)
    }
}

/// Where the kept characters of two runs allow joining them: neither keeps any, or the
/// second's follow the first's.
pub open spec fn content_can_append(a: Option<TimeSpan>, b: Option<TimeSpan>) -> bool {
    match (a, b) {
        (Some(x), Some(y)) => x.end == y.start,
        (None, None) => true,
        _ => false,
    }
}

impl MergableSpan for ListOpMetrics {
    /// Runs of one kind whose positions and kept characters continue each other.
    open spec fn spec_can_append(&self, other: &Self) -> bool {
        &&& self.kind == other.kind
        &&& content_can_append(self.content_pos, other.content_pos)
        &&& self.loc.spec_can_append(&other.loc)
    }

    open spec fn spec_append(&self, other: &Self) -> Self {
        ListOpMetrics {
            loc: self.loc.spec_append(&other.loc),
            kind: self.kind,
            content_pos: match (self.content_pos, other.content_pos) {
                (Some(x), Some(y)) => Some(TimeSpan { start: x.start, end: y.end }),
                _ => self.content_pos,
            },
        }
    }

    fn can_append(&self, other: &Self) -> (r: bool) {
        if self.kind != other.kind {
            return false;
        }
        match (&self.content_pos, &other.content_pos) {
            (Some(a), Some(b)) => {
                if a.end != b.start {
                    return false;
                }
            },
            (None, None) => {},
            _ => {
                return false;
            },
        }
        self.loc.can_append(&other.loc)
    }

    fn append(&mut self, other: Self) {
        self.loc.append(other.loc);
        match (&mut self.content_pos, other.content_pos) {
            (Some(a), Some(b)) => {
                a.end = b.end;
            },
            _ => {},
        }
    }

    fn prepend(&mut self, other: Self) {
        let mut joined = other;
        joined.append(*self);
        *self = joined;
    }
}

impl<V: HasLength> HasLength for KVPair<V> {
    /// The value is valid and the versions it covers fit in `usize`.
    open spec fn valid(&self) -> bool {
        self.1.valid() && self.0 + self.1.spec_len() <= usize::MAX
    }

    open spec fn spec_len(&self) -> nat {
        self.1.spec_len()
    }

    fn len(&self) -> (r: usize) {
        self.1.len()
    }
}

impl<V: SplitableSpan> SplitableSpan for KVPair<V> {
    open spec fn spec_head(&self, at: nat) -> Self {
        KVPair(self.0, self.1.spec_head(at))
    }

    open spec fn spec_tail(&self, at: nat) -> Self {
        KVPair((self.0 + at) as usize, self.1.spec_tail(at))
    }

    fn truncate(&mut self, at: usize) -> (rest: Self) {
        let key = self.0 + at;
        let value = self.1.truncate(at);
        KVPair(key, value)
    }

    fn truncate_keeping_right(&mut self, at: usize) -> (head: Self) {
        let key = self.0;
        let head = self.1.truncate_keeping_right(at);
        self.0 = key + at;
        KVPair(key, head)
    }

    fn split(self, at: usize) -> (parts: (Self, Self)) {
        let KVPair(key, value) = self;
        let (head, rest) = value.split(at);
        (KVPair(key, head), KVPair(key + at, rest))
    }
}

impl<V: MergableSpan> MergableSpan for KVPair<V> {
    /// The second run's versions follow the first's, and the values join.
    open spec fn spec_can_append(&self, other: &Self) -> bool {
        self.0 + self.1.spec_len() == other.0 && self.1.spec_can_append(&other.1)
    }

    open spec fn spec_append(&self, other: &Self) -> Self {
        KVPair(self.0, self.1.spec_append(&other.1))
    }

    fn can_append(&self, other: &Self) -> (r: bool) {
        self.0 + self.1.len() == other.0 && self.1.can_append(&other.1)
    }

    fn append(&mut self, other: Self) {
        self.1.append(other.1);
    }

    fn prepend(&mut self, other: Self) {
        let KVPair(key, value) = other;
        self.1.prepend(value);
        self.0 = key;
    }
}

/// Joining two valid operation runs that fit together gives a valid run as long as both.
pub proof fn lemma_metrics_append(a: ListOpMetrics, b: ListOpMetrics)
    requires
        a.valid(),
        b.valid(),
        a.spec_can_append(&b),
    ensures
        a.spec_append(&b).valid(),
        a.spec_append(&b).spec_len() == a.spec_len() + b.spec_len(),
{
    lemma_append_concatenates(a.loc, b.loc);
}

/// Cutting a run keeps each item's position and its kept character together, whatever the
/// run's direction: the item at offset `k` of either part is the run's item at the same
/// version, standing at the same position, and its character is kept at the same place.
pub proof fn lemma_metrics_split_keeps_items(m: ListOpMetrics, at: nat)
    requires
        m.valid(),
        at <= m.spec_len(),
    ensures
        m.spec_head(at).kind == m.kind,
        m.spec_tail(at).kind == m.kind,
        m.spec_head(at).content_pos is Some <==> m.content_pos is Some,
        m.spec_tail(at).content_pos is Some <==> m.content_pos is Some,
        forall|k: int|
            0 <= k < at ==> #[trigger] time_at(m.spec_head(at).loc, k) == time_at(m.loc, k),
        forall|k: int|
            at <= k < m.spec_len() ==> #[trigger] time_at(m.spec_tail(at).loc, k - at) == time_at(
                m.loc,
                k,
            ),
        m.content_pos matches Some(c) ==> {
            &&& m.spec_head(at).content_pos->0.start == c.start
            &&& m.spec_head(at).content_pos->0.end == c.start + at
            &&& m.spec_tail(at).content_pos->0.start == c.start + at
            &&& m.spec_tail(at).content_pos->0.end == c.end
        },
{
    lemma_split_keeps_times(m.loc, at);
}

/// Two runs of one kind that continue each other are always joined: if the second's kept
/// characters follow the first's (or neither keeps any), and the first's walk followed by the
/// second's is the walk of a single run `r`, the second can be joined onto the first.
pub proof fn lemma_metrics_can_append_complete(a: ListOpMetrics, b: ListOpMetrics, r: TimeSpanRev)
    requires
        a.valid(),
        b.valid(),
        a.kind == b.kind,
        match (a.content_pos, b.content_pos) {
            (Some(x), Some(y)) => x.end == y.start,
            (None, None) => true,
            _ => false,
        },
        r.valid(),
        r.spec_len() == a.spec_len() + b.spec_len(),
        forall|k: int| 0 <= k < a.spec_len() ==> time_at(r, k) == #[trigger] time_at(a.loc, k),
        forall|k: int|
            0 <= k < b.spec_len() ==> time_at(r, a.spec_len() + k) == #[trigger] time_at(b.loc, k),
    ensures
        a.spec_can_append(&b),
{
    lemma_can_append_complete(a.loc, b.loc, r);
}

} // verus!
