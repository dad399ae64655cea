use vstd::prelude::*;

use crate::append_rle::{rle_pushed, AppendRle};
use crate::dtrange::TimeSpan;
use crate::op_metrics::{lemma_metrics_append, lemma_metrics_can_append_complete, KVPair, ListOpKind, ListOpMetrics, ListOperationCtx};
use crate::rev_span::{lemma_append_concatenates, lemma_split_keeps_times, time_at, TimeSpanRev};
use crate::rle::{HasLength, MergableSpan, SplitableSpan};

verus! {

/// An operation on a list of characters: the positions it touches, whether it inserts or
/// deletes, and the characters it inserts (or deletes), where they are known.
#[derive(Clone, Debug)]
pub struct TextOperation {
    pub loc: TimeSpanRev,
    pub kind: ListOpKind,
    pub content: Option<String>,
}

impl TextOperation {
    /// A well formed operation touches at least one position and carries, where it carries
    /// characters, one per position.
    pub open spec fn valid(self) -> bool {
        &&& self.loc.valid()
        &&& self.loc.spec_len() >= 1
        &&& match self.content {
            Some(s) => s@.len() == self.loc.spec_len(),
            None => true,
        }
    }

    /// The number of positions the operation touches.
    pub fn len(&self) -> (r: usize)
        requires
            self.loc.valid(),
        ensures
            r == self.loc.spec_len(),
    {
        self.loc.len()
    }
}

/// The characters of `chars`, in order, as a string.
///
/// Calls `String::from_iter` over the slice's characters, which collects them in order.
#[verifier::external_body]
fn string_from_chars(chars: &[char]) -> (s: String)
    ensures
        s@ == chars@,
{
    chars.iter().collect()
}

/// Appends the characters of `s` to `v`.
fn push_chars(v: &mut Vec<char>, s: &str)
    ensures
        final(v)@ == old(v)@ + s@,
{
    broadcast use vstd::string::axiom_spec_iter;

    let ghost start = v@;
    for c in it: s.chars()
        invariant
            v@ == start + it.seq().take(it.index()),
            it.seq() == s@,
    {
        assert(it.seq().take(it.index() + 1) == it.seq().take(it.index()).push(c));
        v.push(c);
    }
    assert(s@.take(s@.len() as int) == s@);
}

impl ListOperationCtx {
    /// An empty context.
    pub fn new() -> (ctx: Self)
        ensures
            ctx.ins_content@ == Seq::<char>::empty(),
            ctx.del_content@ == Seq::<char>::empty(),
    {
        ListOperationCtx { ins_content: Vec::new(), del_content: Vec::new() }
    }

    /// Keeps the characters of `s` after those already kept for `kind`, and returns where
    /// they now stand.
    pub fn push_str(&mut self, kind: ListOpKind, s: &str) -> (r: TimeSpan)
        ensures
            final(self).content(kind) == old(self).content(kind) + s@,
            kind == ListOpKind::Ins ==> final(self).del_content == old(self).del_content,
            kind == ListOpKind::Del ==> final(self).ins_content == old(self).ins_content,
            r.start == old(self).content(kind).len(),
            r.end == final(self).content(kind).len(),
    {
        match kind {
            ListOpKind::Ins => {
                let start = self.ins_content.len();
                push_chars(&mut self.ins_content, s);
                TimeSpan { start, end: self.ins_content.len() }
            },
            ListOpKind::Del => {
                let start = self.del_content.len();
                push_chars(&mut self.del_content, s);
                TimeSpan { start, end: self.del_content.len() }
            },
        }
    }

    /// The characters kept for `kind` at the positions of `range`.
    pub fn get_str(&self, kind: ListOpKind, range: TimeSpan) -> (s: String)
        requires
            range.start <= range.end,
            range.end <= self.content(kind).len(),
        ensures
            s@ == self.content(kind).subrange(range.start as int, range.end as int),
    {
        let content = match kind {
            ListOpKind::Ins => self.ins_content.as_slice(),
            ListOpKind::Del => self.del_content.as_slice(),
        };
        string_from_chars(vstd::slice::slice_subrange(content, range.start, range.end))
    }
}

/// The version just past the last run of `ops`, or 0 when there is none.
pub open spec fn ops_end(ops: Seq<KVPair<ListOpMetrics>>) -> nat {
    if ops.len() == 0 {
        0
    } else {
        (ops.last().0 + ops.last().1.spec_len()) as nat
    }
}

/// Every run is valid, and the runs stand in order of version without overlapping.
pub open spec fn ops_wf(ops: Seq<KVPair<ListOpMetrics>>) -> bool {
    &&& forall|i: int| 0 <= i < ops.len() ==> #[trigger] ops[i].valid()
    &&& forall|i: int, j: int|
        0 <= i < j < ops.len() ==> #[trigger] ops[i].0 + ops[i].1.spec_len() <= #[trigger] ops[j].0
}

/// Every run's kept characters lie within the context.
pub open spec fn content_wf(ops: Seq<KVPair<ListOpMetrics>>, ctx: ListOperationCtx) -> bool {
    forall|i: int|
        0 <= i < ops.len() ==> match (#[trigger] ops[i]).1.content_pos {
            Some(c) => c.end <= ctx.content(ops[i].1.kind).len(),
            None => true,
        }
}

/// The run that records `op`, whose characters, if any, are kept in `ctx` from the end of
/// what it already holds.
pub open spec fn metrics_for(op: TextOperation, ctx: ListOperationCtx) -> ListOpMetrics {
    ListOpMetrics {
        loc: op.loc,
        kind: op.kind,
        content_pos: match op.content {
            Some(s) => Some(
                TimeSpan {
                    start: ctx.content(op.kind).len() as usize,
                    end: (ctx.content(op.kind).len() + s@.len()) as usize,
                },
            ),
            None => None,
        },
    }
}

/// The characters that `op` adds to the context.
pub open spec fn op_chars(op: TextOperation) -> Seq<char> {
    match op.content {
        Some(s) => s@,
        None => Seq::empty(),
    }
}

/// What a text holds: the characters of its operations, the runs of its operations in order
/// of version, and the versions that no later operation has as a parent.
#[derive(Clone, Debug)]
pub struct TextInfo {
    pub ctx: ListOperationCtx,
    pub ops: Vec<KVPair<ListOpMetrics>>,
    pub frontier: Vec<usize>,
}

impl Default for TextInfo {
    fn default() -> (t: Self)
        ensures
            t.ctx.ins_content@ == Seq::<char>::empty(),
            t.ctx.del_content@ == Seq::<char>::empty(),
            t.ops@ == Seq::<KVPair<ListOpMetrics>>::empty(),
            t.frontier@ == Seq::<usize>::empty(),
    {
        TextInfo { ctx: ListOperationCtx::new(), ops: Vec::new(), frontier: Vec::new() }
    }
}

/// The runs before the last end no later than where the last ends.
proof fn lemma_ops_end_bounds(ops: Seq<KVPair<ListOpMetrics>>)
    requires
        ops_wf(ops),
    ensures
        forall|i: int| 0 <= i < ops.len() ==> #[trigger] ops[i].0 + ops[i].1.spec_len() <= ops_end(ops),
{
    assert forall|i: int| 0 <= i < ops.len() implies #[trigger] ops[i].0 + ops[i].1.spec_len()
        <= ops_end(ops) by {
        if i < ops.len() - 1 {
            assert(ops[i].0 + ops[i].1.spec_len() <= ops[ops.len() - 1].0);
        }
    }
}

/// Whether a run covers any version of `range`.
pub open spec fn overlaps(e: KVPair<ListOpMetrics>, range: TimeSpan) -> bool {
    range.start < range.end && e.0 < range.end && range.start < e.0 + e.1.spec_len()
}

/// The part of a run that lies within `range`: the run without the versions after
/// `range.end`, then without those before `range.start`.
pub open spec fn clip(e: KVPair<ListOpMetrics>, range: TimeSpan) -> KVPair<ListOpMetrics> {
    let end_off: nat = if range.end < e.0 + e.1.spec_len() {
        (range.end - e.0) as nat
    } else {
        e.1.spec_len()
    };
    let skip: nat = if range.start > e.0 {
        (range.start - e.0) as nat
    } else {
        0
    };
    e.spec_head(end_off).spec_tail(skip)
}

/// The parts within `range` of the runs that cover any of it, in order.
pub open spec fn clipped_ops(ops: Seq<KVPair<ListOpMetrics>>, range: TimeSpan) -> Seq<
    KVPair<ListOpMetrics>,
>
    decreases ops.len(),
{
    if ops.len() == 0 {
        Seq::empty()
    } else {
        let rest = clipped_ops(ops.drop_last(), range);
        if overlaps(ops.last(), range) {
            rest.push(clip(ops.last(), range))
        } else {
            rest
        }
    }
}

/// The characters `s` are those that `m` keeps in `ctx`, and `s` is there exactly when `m`
/// keeps characters.
pub open spec fn content_of(s: Option<String>, m: ListOpMetrics, ctx: ListOperationCtx) -> bool {
    match (s, m.content_pos) {
        (Some(s), Some(c)) => s@ == ctx.content(m.kind).subrange(c.start as int, c.end as int),
        (None, None) => true,
        _ => false,
    }
}

/// Cutting a valid run gives valid parts of the expected lengths.
proof fn lemma_metrics_split(m: ListOpMetrics, at: nat)
    requires
        m.valid(),
        at <= m.spec_len(),
    ensures
        at >= 1 ==> m.spec_head(at).valid() && m.spec_head(at).spec_len() == at,
        at < m.spec_len() ==> m.spec_tail(at).valid() && m.spec_tail(at).spec_len() == m.spec_len()
            - at,
{
}

/// Cutting nothing off a valid run leaves it as it was.
proof fn lemma_metrics_whole(e: KVPair<ListOpMetrics>)
    requires
        e.valid(),
    ensures
        e.spec_head(e.spec_len()).spec_tail(0) == e,
{
    let m = e.1;
    assert(m.loc.spec_head(m.spec_len()).spec_tail(0) == m.loc);
    match m.content_pos {
        Some(c) => {
            assert(c.spec_head(m.spec_len()).spec_tail(0) == c);
        },
        None => {},
    }
    assert(m.spec_head(m.spec_len()).spec_tail(0) == m);
}

/// Clipping well formed runs to a range from 0 that reaches past all of them keeps them all,
/// unchanged.
proof fn lemma_clip_whole(ops: Seq<KVPair<ListOpMetrics>>, range: TimeSpan)
    requires
        ops_wf(ops),
        range.start == 0,
        ops_end(ops) <= range.end,
    ensures
        clipped_ops(ops, range) == ops,
    decreases ops.len(),
{
    if ops.len() > 0 {
        let rest = ops.drop_last();
        lemma_ops_end_bounds(ops);
        assert(ops_wf(rest)) by {
            assert forall|i: int, j: int| 0 <= i < j < rest.len() implies #[trigger] rest[i].0
                + rest[i].1.spec_len() <= #[trigger] rest[j].0 by {
                assert(ops[i].0 + ops[i].1.spec_len() <= ops[j].0);
            }
            assert forall|i: int| 0 <= i < rest.len() implies #[trigger] rest[i].valid() by {
                assert(ops[i].valid());
            }
        }
        if rest.len() > 0 {
            assert(rest.last() == ops[rest.len() - 1]);
            assert(ops[rest.len() - 1].0 + ops[rest.len() - 1].1.spec_len() <= ops_end(ops));
        }
        lemma_clip_whole(rest, range);
        assert(ops[ops.len() - 1].valid());
        lemma_metrics_whole(ops.last());
        assert(rest.push(ops.last()) == ops);
    }
}

/// The characters kept for one kind fit in `usize`, as a `Vec` holds them.
proof fn lemma_content_fits(ctx: ListOperationCtx, kind: ListOpKind)
    ensures
        ctx.content(kind).len() <= usize::MAX,
{
    assert(ctx.ins_content.len() == ctx.ins_content@.len());
    assert(ctx.del_content.len() == ctx.del_content@.len());
}

/// The part of a run that a ranged read gives is non-empty and valid, covers exactly the
/// versions that the run and the range share, keeps the run's kind, and walks the same
/// positions at the same versions as the run.
pub proof fn lemma_clip_within(e: KVPair<ListOpMetrics>, range: TimeSpan)
    requires
        e.valid(),
        range.start <= range.end,
        overlaps(e, range),
    ensures
        clip(e, range).valid(),
        clip(e, range).0 == if range.start > e.0 {
            range.start as int
        } else {
            e.0 as int
        },
        clip(e, range).0 + clip(e, range).spec_len() == if range.end < e.0 + e.spec_len() {
            range.end as int
        } else {
            e.0 + e.spec_len()
        },
        clip(e, range).1.kind == e.1.kind,
        forall|k: int|
            0 <= k < clip(e, range).spec_len() ==> #[trigger] time_at(clip(e, range).1.loc, k)
                == time_at(e.1.loc, k + clip(e, range).0 - e.0),
        clip(e, range).1.content_pos is Some <==> e.1.content_pos is Some,
        e.1.content_pos matches Some(c) ==> {
            &&& clip(e, range).1.content_pos->0.start == c.start + (clip(e, range).0 - e.0)
            &&& clip(e, range).1.content_pos->0.end == clip(e, range).1.content_pos->0.start
                + clip(e, range).spec_len()
        },
{
    let len = e.1.spec_len();
    let end_off: nat = if range.end < e.0 + len {
        (range.end - e.0) as nat
    } else {
        len
    };
    let skip: nat = if range.start > e.0 {
        (range.start - e.0) as nat
    } else {
        0
    };
    lemma_metrics_split(e.1, end_off);
    let h = e.1.spec_head(end_off);
    lemma_metrics_split(h, skip);
    lemma_split_keeps_times(e.1.loc, end_off);
    lemma_split_keeps_times(h.loc, skip);
    let c = clip(e, range);
    assert(skip < end_off);
    assert(c.1 == h.spec_tail(skip));
    assert(c.0 == e.0 + skip);
    assert(c.1.valid());
    assert forall|k: int| 0 <= k < c.spec_len() implies #[trigger] time_at(c.1.loc, k) == time_at(
        e.1.loc,
        k + c.0 - e.0,
    ) by {
        assert(time_at(h.loc.spec_tail(skip), (k + skip) - skip) == time_at(h.loc, k + skip));
        assert(time_at(e.1.loc.spec_head(end_off), k + skip) == time_at(e.1.loc, k + skip));
    }
}

/// A push always joins an operation onto the last run when it continues it: same kind, its
/// versions start where the last run's end, the last run's walk followed by the operation's
/// is the walk of a single run `r`, and either neither keeps characters or the last run's
/// characters are the last ones kept. Then no run is added, and the last run now ends at the
/// operation's last version.
pub proof fn lemma_push_joins_continuing_run(
    before: TextInfo,
    after: TextInfo,
    op: TextOperation,
    v_range: TimeSpan,
    r: TimeSpanRev,
)
    requires
        before.wf(),
        op.valid(),
        v_range.start <= v_range.end,
        v_range.spec_len() == op.loc.spec_len(),
        ops_end(before.ops@) <= v_range.start,
        after.ctx.content(op.kind) == before.ctx.content(op.kind) + op_chars(op),
        after.ops@ == rle_pushed(before.ops@, KVPair(v_range.start, metrics_for(op, before.ctx))),
        before.ops@.len() > 0,
        before.ops@.last().1.kind == op.kind,
        before.ops@.last().0 + before.ops@.last().1.spec_len() == v_range.start,
        match (before.ops@.last().1.content_pos, op.content) {
            (None, None) => true,
            (Some(c), Some(_)) => c.end == before.ctx.content(op.kind).len(),
            _ => false,
        },
        r.valid(),
        r.spec_len() == before.ops@.last().1.spec_len() + op.loc.spec_len(),
        forall|k: int|
            0 <= k < before.ops@.last().1.spec_len() ==> time_at(r, k) == #[trigger] time_at(
                before.ops@.last().1.loc,
                k,
            ),
        forall|k: int|
            0 <= k < op.loc.spec_len() ==> time_at(r, before.ops@.last().1.spec_len() + k)
                == #[trigger] time_at(op.loc, k),
    ensures
        after.ops@.len() == before.ops@.len(),
        after.ops@.last().0 == before.ops@.last().0,
        after.ops@.last().0 + after.ops@.last().1.spec_len() == v_range.end,
{
    lemma_content_fits(after.ctx, op.kind);
    let old_ops = before.ops@;
    let item = KVPair(v_range.start, metrics_for(op, before.ctx));
    let last = old_ops.last();
    assert(old_ops[old_ops.len() - 1].valid());
    assert(item.1.valid());
    lemma_metrics_can_append_complete(last.1, item.1, r);
    assert(last.spec_can_append(&item));
    lemma_metrics_append(last.1, item.1);
}

/// What a push writes, a read gives back: after `op` is pushed with the versions `v_range`,
/// the last run ends at `v_range.end` and has the operation's kind. Where the operation was
/// added as a run of its own, that run starts at `v_range.start`, touches the operation's
/// positions and keeps exactly the operation's characters. Where it was joined onto the
/// previous last run, the joined run walks that run's positions and then the operation's,
/// and keeps that run's characters followed by the operation's.
pub proof fn lemma_pushed_op_reads_back(
    before: TextInfo,
    after: TextInfo,
    op: TextOperation,
    v_range: TimeSpan,
)
    requires
        before.wf(),
        op.valid(),
        v_range.start <= v_range.end,
        v_range.spec_len() == op.loc.spec_len(),
        ops_end(before.ops@) <= v_range.start,
        after.ctx.content(op.kind) == before.ctx.content(op.kind) + op_chars(op),
        after.ops@ == rle_pushed(before.ops@, KVPair(v_range.start, metrics_for(op, before.ctx))),
    ensures
        after.ops@.len() > 0,
        after.ops@.last().0 + after.ops@.last().1.spec_len() == v_range.end,
        after.ops@.last().1.kind == op.kind,
        after.ops@.len() == before.ops@.len() + 1 ==> {
            &&& after.ops@.last().0 == v_range.start
            &&& after.ops@.last().1.loc == op.loc
            &&& match (after.ops@.last().1.content_pos, op.content) {
                (Some(c), Some(text)) => after.ctx.content(op.kind).subrange(
                    c.start as int,
                    c.end as int,
                ) == text@,
                (None, None) => true,
                _ => false,
            }
        },
        after.ops@.len() == before.ops@.len() ==> {
            let prev = before.ops@.last().1;
            let joined = after.ops@.last().1;
            &&& after.ops@.last().0 == before.ops@.last().0
            &&& forall|k: int|
                0 <= k < prev.spec_len() ==> #[trigger] time_at(joined.loc, k) == time_at(prev.loc, k)
            &&& forall|k: int|
                prev.spec_len() <= k < joined.spec_len() ==> #[trigger] time_at(joined.loc, k)
                    == time_at(op.loc, k - prev.spec_len())
            &&& match (joined.content_pos, prev.content_pos) {
                (Some(c), Some(p)) => after.ctx.content(op.kind).subrange(
                    c.start as int,
                    c.end as int,
                ) == before.ctx.content(op.kind).subrange(p.start as int, p.end as int)
                    + op_chars(op),
                (None, None) => op.content is None,
                _ => false,
            }
        },
{
    lemma_content_fits(after.ctx, op.kind);
    let old_ops = before.ops@;
    let item = KVPair(v_range.start, metrics_for(op, before.ctx));
    let old_len = before.ctx.content(op.kind).len();
    if old_ops.len() > 0 && old_ops.last().spec_can_append(&item) {
        let prev = old_ops.last().1;
        assert(old_ops[old_ops.len() - 1].valid());
        lemma_metrics_append(prev, item.1);
        lemma_append_concatenates(prev.loc, item.1.loc);
        match (prev.content_pos, op.content) {
            (Some(p), Some(text)) => {
                assert(content_wf(old_ops, before.ctx));
                assert(p.end <= old_len);
                assert(p.end == old_len);
                assert(after.ctx.content(op.kind).subrange(p.start as int, (old_len + text@.len()) as int)
                    =~= before.ctx.content(op.kind).subrange(p.start as int, p.end as int) + text@);
            },
            _ => {},
        }
    } else {
        match op.content {
            Some(text) => {
                assert(after.ctx.content(op.kind).subrange(old_len as int, (old_len + text@.len()) as int)
                    =~= text@);
            },
            None => {},
        }
    }
}

impl TextInfo {
    /// The operation runs are well formed and their characters are in the context.
    pub open spec fn wf(self) -> bool {
        ops_wf(self.ops@) && content_wf(self.ops@, self.ctx)
    }

    /// Records `op`, which has the versions `v_range`: its characters go into the context and
    /// its run is pushed onto the runs, merged into the last run where it continues it.
    fn push_op_internal(&mut self, op: TextOperation, v_range: TimeSpan)
        requires
            old(self).wf(),
            op.valid(),
            v_range.start <= v_range.end,
            v_range.spec_len() == op.loc.spec_len(),
            ops_end(old(self).ops@) <= v_range.start,
        ensures
            final(self).wf(),
            final(self).ctx.content(op.kind) == old(self).ctx.content(op.kind) + op_chars(op),
            op.kind == ListOpKind::Ins ==> final(self).ctx.del_content == old(self).ctx.del_content,
            op.kind == ListOpKind::Del ==> final(self).ctx.ins_content == old(self).ctx.ins_content,
            final(self).ops@ == rle_pushed(
                old(self).ops@,
                KVPair(v_range.start, metrics_for(op, old(self).ctx)),
            ),
            ops_end(final(self).ops@) == v_range.end,
            final(self).frontier == old(self).frontier,
    {
        let ghost old_ctx = self.ctx;
        let ghost old_ops = self.ops@;
        let kind = op.kind;
        let content_pos = match &op.content {
            Some(content) => Some(self.ctx.push_str(kind, content.as_str())),
            None => None,
        };
        let item = KVPair(v_range.start, ListOpMetrics { loc: op.loc, kind, content_pos });
        assert(item.1 == metrics_for(op, old_ctx));
        proof {
            lemma_ops_end_bounds(old_ops);
            if old_ops.len() > 0 {
                assert(old_ops[old_ops.len() - 1].valid());
            }
        }
        let merged = self.ops.push_rle(item);
        proof {
            let new_ops = self.ops@;
            if merged {
                let last = old_ops.last();
                lemma_metrics_append(last.1, item.1);
                assert(new_ops.last() == last.spec_append(&item));
                assert forall|i: int, j: int|
                    0 <= i < j < new_ops.len() implies #[trigger] new_ops[i].0
                    + new_ops[i].1.spec_len() <= #[trigger] new_ops[j].0 by {
                    if j < new_ops.len() - 1 {
                        assert(old_ops[i].0 + old_ops[i].1.spec_len() <= old_ops[j].0);
                    } else {
                        assert(old_ops[i].0 + old_ops[i].1.spec_len() <= old_ops[j].0);
                    }
                }
            } else {
                assert forall|i: int, j: int|
                    0 <= i < j < new_ops.len() implies #[trigger] new_ops[i].0
                    + new_ops[i].1.spec_len() <= #[trigger] new_ops[j].0 by {
                    if j < new_ops.len() - 1 {
                        assert(old_ops[i].0 + old_ops[i].1.spec_len() <= old_ops[j].0);
                    } else {
                        assert(old_ops[i].0 + old_ops[i].1.spec_len() <= ops_end(old_ops));
                    }
                }
            }
            assert forall|i: int| 0 <= i < new_ops.len() implies #[trigger] new_ops[i].valid() by {
                if i < old_ops.len() {
                    assert(old_ops[i].valid());
                }
            }
            assert forall|i: int| 0 <= i < new_ops.len() implies match (#[trigger] new_ops[i]).1.content_pos {
                Some(c) => c.end <= self.ctx.content(new_ops[i].1.kind).len(),
                None => true,
            } by {
                if i < old_ops.len() && !(merged && i == old_ops.len() - 1) {
                    assert(old_ops[i] == new_ops[i]);
                    assert(content_wf(old_ops, old_ctx));
                    let e = old_ops[i];
                    match e.1.content_pos {
                        Some(c) => {
                            assert(c.end <= old_ctx.content(e.1.kind).len());
                        },
                        None => {},
                    }
                }
            }
        }
    }

    /// Records an operation made here, with the versions `v_range`, which follow all the
    /// text's versions: after it the frontier is the operation's last version alone.
    pub fn local_push_op(&mut self, op: TextOperation, v_range: TimeSpan)
        requires
            old(self).wf(),
            op.valid(),
            v_range.start <= v_range.end,
            v_range.spec_len() == op.loc.spec_len(),
            ops_end(old(self).ops@) <= v_range.start,
        ensures
            final(self).wf(),
            final(self).ctx.content(op.kind) == old(self).ctx.content(op.kind) + op_chars(op),
            op.kind == ListOpKind::Ins ==> final(self).ctx.del_content == old(self).ctx.del_content,
            op.kind == ListOpKind::Del ==> final(self).ctx.ins_content == old(self).ctx.ins_content,
            final(self).ops@ == rle_pushed(
                old(self).ops@,
                KVPair(v_range.start, metrics_for(op, old(self).ctx)),
            ),
            final(self).frontier@ == seq![(v_range.end - 1) as usize],
    {
        self.push_op_internal(op, v_range);
        let last = v_range.last();
        self.frontier.clear();
        self.frontier.push(last);
    }

    /// The version just past the last run, or 0 when there are no runs.
    pub fn ops_end(&self) -> (r: usize)
        requires
            self.wf(),
        ensures
            r == ops_end(self.ops@),
    {
        let n = self.ops.len();
        if n == 0 {
            0
        } else {
            proof {
                assert(self.ops@[n - 1].valid());
            }
            let last = &self.ops[n - 1];
            last.0 + last.len()
        }
    }

    /// The runs that cover versions of `range`, each cut down to the part within `range`.
    pub fn iter_metrics_range(&self, range: TimeSpan) -> (r: Vec<KVPair<ListOpMetrics>>)
        requires
            self.wf(),
            range.start <= range.end,
        ensures
            r@ == clipped_ops(self.ops@, range),
    {
        let mut out: Vec<KVPair<ListOpMetrics>> = Vec::new();
        let mut i: usize = 0;
        while i < self.ops.len()
            invariant
                self.wf(),
                range.start <= range.end,
                0 <= i <= self.ops@.len(),
                out@ == clipped_ops(self.ops@.take(i as int), range),
            decreases self.ops@.len() - i,
        {
            let mut e = self.ops[i];
            let ghost e0 = e;
            proof {
                assert(self.ops@[i as int].valid());
            }
            let len = e.len();
            if range.start < range.end && e.0 < range.end && range.start < e.0 + len {
                let end_off = if range.end < e.0 + len {
                    range.end - e.0
                } else {
                    len
                };
                proof {
                    lemma_metrics_split(e.1, end_off as nat);
                }
                e.truncate(end_off);
                if range.start > e.0 {
                    let skip = range.start - e.0;
                    e.truncate_keeping_right(skip);
                } else {
                    assert(e.spec_tail(0) == e);
                }
                assert(e == clip(e0, range));
                out.push(e);
            }
            assert(self.ops@.take(i + 1).drop_last() == self.ops@.take(i as int));
            i += 1;
        }
        assert(self.ops@.take(self.ops@.len() as int) == self.ops@);
        out
    }

    /// All the runs, in order.
    pub fn iter_metrics(&self) -> (r: Vec<KVPair<ListOpMetrics>>)
        requires
            self.wf(),
        ensures
            r@ == self.ops@,
    {
        let end = self.ops_end();
        let r = self.iter_metrics_range(TimeSpan { start: 0, end });
        proof {
            lemma_clip_whole(self.ops@, TimeSpan { start: 0, end });
        }
        r
    }

    /// All the runs, in order, each with the characters it keeps in the context.
    pub fn iter_fast(&self) -> (r: Vec<(KVPair<ListOpMetrics>, Option<String>)>)
        requires
            self.wf(),
        ensures
            r@.len() == self.ops@.len(),
            forall|i: int|
                0 <= i < r@.len() ==> (#[trigger] r@[i]).0 == self.ops@[i] && content_of(
                    r@[i].1,
                    self.ops@[i].1,
                    self.ctx,
                ),
    {
        let metrics = self.iter_metrics();
        let mut out: Vec<(KVPair<ListOpMetrics>, Option<String>)> = Vec::new();
        let mut i: usize = 0;
        while i < metrics.len()
            invariant
                self.wf(),
                metrics@ == self.ops@,
                0 <= i <= metrics@.len(),
                out@.len() == i,
                forall|k: int|
                    0 <= k < i ==> (#[trigger] out@[k]).0 == self.ops@[k] && content_of(
                        out@[k].1,
                        self.ops@[k].1,
                        self.ctx,
                    ),
            decreases metrics@.len() - i,
        {
            let e = metrics[i];
            proof {
                assert(self.ops@[i as int].valid());
                assert(content_wf(self.ops@, self.ctx));
            }
            let content = match e.1.content_pos {
                Some(c) => Some(self.ctx.get_str(e.1.kind, c)),
                None => None,
            };
            out.push((e, content));
            i += 1;
        }
        out
    }

    /// All the operations, in order: each run as an operation, with its characters.
    pub fn iter(&self) -> (r: Vec<TextOperation>)
        requires
            self.wf(),
        ensures
            r@.len() == self.ops@.len(),
            forall|i: int|
                0 <= i < r@.len() ==> (#[trigger] r@[i]).loc == self.ops@[i].1.loc && r@[i].kind
                    == self.ops@[i].1.kind && content_of(r@[i].content, self.ops@[i].1, self.ctx),
    {
        let pairs = self.iter_fast();
        let mut out: Vec<TextOperation> = Vec::new();
        let mut i: usize = 0;
        while i < pairs.len()
            invariant
                pairs@.len() == self.ops@.len(),
                forall|k: int|
                    0 <= k < pairs@.len() ==> (#[trigger] pairs@[k]).0 == self.ops@[k] && content_of(
                        pairs@[k].1,
                        self.ops@[k].1,
                        self.ctx,
                    ),
                0 <= i <= pairs@.len(),
                out@.len() == i,
                forall|k: int|
                    0 <= k < i ==> (#[trigger] out@[k]).loc == self.ops@[k].1.loc && out@[k].kind
                        == self.ops@[k].1.kind && content_of(out@[k].content, self.ops@[k].1, self.ctx),
            decreases pairs@.len() - i,
        {
            let pair = &pairs[i];
            let metrics = pair.0.1;
            let content = pair.1.clone();
            out.push(TextOperation { loc: metrics.loc, kind: metrics.kind, content });
            i += 1;
        }
        out
    }
}

} // verus!