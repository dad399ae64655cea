use vstd::prelude::*;

pub mod cursor;

verus! {

/// A location in the CRDT: the client that made an item and that item's sequence number.
#[derive(Copy, Clone, Debug, PartialEq, Eq, Structural)]
pub struct CRDTLocation {
    pub client: u16,
    pub seq: u32,
}

/// The location that stands for the start of the document.
pub open spec fn doc_root() -> CRDTLocation {
    CRDTLocation { client: u16::MAX, seq: 0 }
}

/// The location that stands for the start of the document.
pub fn crdt_doc_root() -> (r: CRDTLocation)
    ensures
        r == doc_root(),
{
    CRDTLocation { client: u16::MAX, seq: 0 }
}

/// A run of items made by one client with consecutive sequence numbers. `len` is negative
/// when the items have been deleted.
#[derive(Copy, Clone, Debug, PartialEq, Eq, Structural)]
pub struct Entry {
    pub loc: CRDTLocation,
    pub len: i32,
}

impl Entry {
    /// The number of sequence numbers the run takes, deleted or not.
    pub open spec fn seq_len(self) -> nat {
        if self.len < 0 {
            (-self.len) as nat
        } else {
            self.len as nat
        }
    }

    /// The number of characters the run shows in the document: none once deleted.
    pub open spec fn text_len(self) -> nat {
        if self.len < 0 {
            0
        } else {
            self.len as nat
        }
    }

    pub fn get_seq_len(&self) -> (r: u32)
        requires
            self.len != i32::MIN,
        ensures
            r == self.seq_len(),
    {
        if self.len < 0 {
            (-self.len) as u32
        } else {
            self.len as u32
        }
    }

    pub fn get_text_len(&self) -> (r: u32)
        ensures
            r == self.text_len(),
    {
        if self.len < 0 {
            0
        } else {
            self.len as u32
        }
    }
}

/// Where a node hangs: from the tree itself (it is the root) or from an internal node,
/// given by its index in the tree's internal nodes.
#[derive(Copy, Clone, Debug, PartialEq, Eq, Structural)]
pub enum ParentPtr {
    Root,
    Internal(usize),
}

/// A node of the tree, by its index among the internal nodes or among the leaves.
#[derive(Copy, Clone, Debug, PartialEq, Eq, Structural)]
pub enum NodePtr {
    Internal(usize),
    Leaf(usize),
}

/// A leaf: the first `len` slots of `data` hold its runs; the rest are unused.
#[derive(Clone, Debug)]
pub struct NodeLeaf {
    pub parent: ParentPtr,
    pub len: u8,
    pub data: Vec<Entry>,
}

/// An internal node: its slots hold its children, each with the number of characters it
/// shows; the used slots come first.
#[derive(Clone, Debug)]
pub struct NodeInternal {
    pub parent: ParentPtr,
    pub data: Vec<(u32, Option<NodePtr>)>,
}

/// A counted B-tree of runs, with its nodes kept in two arenas and linked by index.
#[derive(Clone, Debug)]
pub struct MarkerTree {
    pub root: NodePtr,
    pub leaves: Vec<NodeLeaf>,
    pub internals: Vec<NodeInternal>,
}

/// The used slots of `n` are exactly its first `c`.
pub open spec fn packed(n: NodeInternal, c: int) -> bool {
    &&& 0 <= c <= n.data@.len()
    &&& forall|j: int| 0 <= j < n.data@.len() ==> (j < c <==> (#[trigger] n.data@[j]).1 is Some)
}

/// The number of children of `n`.
pub open spec fn child_count(n: NodeInternal) -> int {
    choose|c: int| packed(n, c)
}

impl NodeLeaf {
    pub fn count_entries(&self) -> (r: usize)
        ensures
            r == self.len,
    {
        self.len as usize
    }
}

impl NodeInternal {
    /// The number of children: the used slots, which come first.
    pub fn count_children(&self) -> (r: usize)
        requires
            packed(*self, child_count(*self)),
        ensures
            r == child_count(*self),
    {
        let mut i: usize = 0;
        while i < self.data.len() && self.data[i].1.is_some()
            invariant
                packed(*self, child_count(*self)),
                0 <= i <= self.data@.len(),
                i <= child_count(*self),
            decreases self.data@.len() - i,
        {
            i += 1;
        }
        i
    }

    /// The slot that holds `child`, if any slot does: the first such.
    pub fn find_child(&self, child: NodePtr) -> (r: Option<usize>)
        ensures
            match r {
                Some(i) => i < self.data@.len() && self.data@[i as int].1 == Some(child) && forall|
                    j: int,
                | 0 <= j < i ==> (#[trigger] self.data@[j]).1 != Some(child),
                None => forall|j: int|
                    0 <= j < self.data@.len() ==> (#[trigger] self.data@[j]).1 != Some(child),
            },
    {
        let mut i: usize = 0;
        while i < self.data.len()
            invariant
                0 <= i <= self.data@.len(),
                forall|j: int| 0 <= j < i ==> (#[trigger] self.data@[j]).1 != Some(child),
            decreases self.data@.len() - i,
        {
            if self.data[i].1 == Some(child) {
                return Some(i);
            }
            i += 1;
        }
        None
    }
}

/// The runs under the first `i` slots of a node start the runs under its first `m` slots.
pub proof fn lemma_children_flat_prefix(t: MarkerTree, q: usize, i: nat, m: nat)
    requires
        q < t.internals@.len(),
        i <= m <= t.internals@[q as int].data@.len(),
    ensures
        t.children_flat(q, i).len() <= t.children_flat(q, m).len(),
        t.children_flat(q, m).subrange(0, t.children_flat(q, i).len() as int) =~= t.children_flat(
            q,
            i,
        ),
    decreases m,
{
    if i < m {
        lemma_children_flat_prefix(t, q, i, (m - 1) as nat);
    }
}

/// The runs under the slots of a node after its children are no more than those under its
/// children.
pub proof fn lemma_children_flat_unused(t: MarkerTree, q: usize, m: nat)
    requires
        q < t.internals@.len(),
        packed(t.internals@[q as int], child_count(t.internals@[q as int])),
        child_count(t.internals@[q as int]) <= m <= t.internals@[q as int].data@.len(),
    ensures
        t.children_flat(q, m) == t.children_flat(q, child_count(t.internals@[q as int]) as nat),
    decreases m,
{
    let n = t.internals@[q as int];
    if m > child_count(n) {
        assert(n.data@[m - 1].1 is None);
        lemma_children_flat_unused(t, q, (m - 1) as nat);
    }
}

/// The runs under a child follow those under the slots before it.
pub proof fn lemma_children_flat_step(t: MarkerTree, q: usize, i: nat)
    requires
        q < t.internals@.len(),
        i < t.internals@[q as int].data@.len(),
        t.internals@[q as int].data@[i as int].1 is Some,
        t.child_ok(q, t.internals@[q as int].data@[i as int].1->0),
    ensures
        t.children_flat(q, i + 1) == t.children_flat(q, i) + t.subtree_flat(
            t.internals@[q as int].data@[i as int].1->0,
        ),
{
}

/// Inside the runs under all of a node's slots, those under the child in slot `i` stand
/// right after those under the slots before it.
proof fn lemma_children_flat_index(t: MarkerTree, q: usize, i: nat, k: int)
    requires
        q < t.internals@.len(),
        i < t.internals@[q as int].data@.len(),
        t.internals@[q as int].data@[i as int].1 is Some,
        t.child_ok(q, t.internals@[q as int].data@[i as int].1->0),
        0 <= k < t.subtree_flat(t.internals@[q as int].data@[i as int].1->0).len(),
    ensures
        t.children_flat(q, i).len() + k < t.subtree_flat(NodePtr::Internal(q)).len(),
        t.subtree_flat(NodePtr::Internal(q))[t.children_flat(q, i).len() + k] == t.subtree_flat(
            t.internals@[q as int].data@[i as int].1->0,
        )[k],
{
    let len = t.internals@[q as int].data@.len();
    lemma_children_flat_step(t, q, i);
    lemma_children_flat_prefix(t, q, i + 1, len);
    let a = t.children_flat(q, i + 1);
    let b = t.subtree_flat(NodePtr::Internal(q));
    assert(b.subrange(0, a.len() as int)[t.children_flat(q, i).len() + k] == a[t.children_flat(q, i).len() + k]);
}

/// In a well formed tree, the slot that `child_index` picks holds the node, and is the only
/// one that does.
pub proof fn lemma_child_index(t: MarkerTree, pp: usize, p: NodePtr)
    requires
        t.wf(),
        pp < t.internals@.len(),
        t.has_child(pp, p),
    ensures
        0 <= t.child_index(pp, p) < child_count(t.internals@[pp as int]),
        t.internals@[pp as int].data@[t.child_index(pp, p)].1 == Some(p),
        forall|j: int|
            0 <= j < t.internals@[pp as int].data@.len() && (#[trigger] t.internals@[
                pp as int
            ].data@[j]).1 == Some(p) ==> j == t.child_index(pp, p),
{
    let n = t.internals@[pp as int];
    assert(t.internal_wf(pp as int));
    let i = t.child_index(pp, p);
    assert(n.data@[i].1 is Some);
    assert forall|j: int|
        0 <= j < n.data@.len() && (#[trigger] n.data@[j]).1 == Some(p) implies j == i by {
        if j != i {
            assert(n.data@[i].1 != n.data@[j].1);
        }
    }
}

/// In a well formed tree, the runs of the document, from the first run under `p` on, are
/// the runs under `p`.
pub proof fn lemma_doc_flat_index(t: MarkerTree, p: NodePtr, k: int)
    requires
        t.wf(),
        t.ptr_ok(p),
        0 <= k < t.subtree_flat(p).len(),
    ensures
        t.left_of(p) + k < t.doc_flat().len(),
        t.doc_flat()[t.left_of(p) + k] == t.subtree_flat(p)[k],
    decreases t.up_rank(p),
{
    match p {
        NodePtr::Leaf(l) => {
            assert(t.leaf_wf(l as int));
        },
        NodePtr::Internal(q) => {
            assert(t.internal_wf(q as int));
        },
    }
    match t.parent_of(p) {
        ParentPtr::Root => {},
        ParentPtr::Internal(pp) => {
            lemma_child_index(t, pp, p);
            let i = t.child_index(pp, p);
            assert(t.internal_wf(pp as int));
            let n = t.internals@[pp as int];
            assert(t.child_ok(pp, n.data@[i].1->0));
            lemma_children_flat_index(t, pp, i as nat, k);
            lemma_doc_flat_index(
                t,
                NodePtr::Internal(pp),
                t.children_flat(pp, i as nat).len() + k,
            );
        },
    }
}

/// The number of characters that the runs at the document positions `s` show.
pub open spec fn text_of(t: MarkerTree, s: Seq<(usize, usize)>) -> nat
    decreases s.len(),
{
    if s.len() == 0 {
        0
    } else {
        text_of(t, s.drop_last()) + t.leaves@[s.last().0 as int].data@[s.last().1 as int].text_len()
    }
}

/// The sum of the counts in the first `i` slots of `n`.
pub open spec fn count_sum(n: NodeInternal, i: int) -> nat
    decreases i,
{
    if i <= 0 {
        0
    } else {
        count_sum(n, i - 1) + n.data@[i - 1].0 as nat
    }
}

/// The characters shown by two runs of positions one after the other add up.
pub proof fn lemma_text_of_concat(t: MarkerTree, a: Seq<(usize, usize)>, b: Seq<(usize, usize)>)
    ensures
        text_of(t, a + b) == text_of(t, a) + text_of(t, b),
    decreases b.len(),
{
    if b.len() > 0 {
        lemma_text_of_concat(t, a, b.drop_last());
        assert((a + b).drop_last() =~= a + b.drop_last());
    }
}

/// A longer start of a run of positions shows at least as many characters.
pub proof fn lemma_text_of_take_mono(t: MarkerTree, s: Seq<(usize, usize)>, i: int, j: int)
    requires
        0 <= i <= j <= s.len(),
    ensures
        text_of(t, s.take(i)) <= text_of(t, s.take(j)),
{
    lemma_text_of_concat(t, s.take(i), s.subrange(i, j));
    assert(s.take(j) =~= s.take(i) + s.subrange(i, j));
}

/// A longer start of the slots of a node counts at least as many characters.
pub proof fn lemma_count_sum_mono(n: NodeInternal, i: int, j: int)
    requires
        0 <= i <= j,
    ensures
        count_sum(n, i) <= count_sum(n, j),
    decreases j,
{
    if i < j {
        lemma_count_sum_mono(n, i, j - 1);
    }
}

/// Where each child's count is the number of characters under it, the counts in the first
/// `i` slots of a node add up to the characters under those slots.
pub proof fn lemma_count_sum_text(t: MarkerTree, q: usize, i: int)
    requires
        t.wf(),
        t.counts_wf(),
        q < t.internals@.len(),
        0 <= i <= child_count(t.internals@[q as int]),
    ensures
        count_sum(t.internals@[q as int], i) == text_of(t, t.children_flat(q, i as nat)),
    decreases i,
{
    if i > 0 {
        let n = t.internals@[q as int];
        assert(t.internal_wf(q as int));
        lemma_count_sum_text(t, q, i - 1);
        assert(n.data@[i - 1].1 is Some);
        assert(t.child_ok(q, n.data@[i - 1].1->0));
        lemma_children_flat_step(t, q, (i - 1) as nat);
        lemma_text_of_concat(
            t,
            t.children_flat(q, (i - 1) as nat),
            t.subtree_flat(n.data@[i - 1].1->0),
        );
    }
}

/// The document positions from the first run under `p` on start with the runs under `p`.
pub proof fn lemma_doc_flat_subrange(t: MarkerTree, p: NodePtr, m: int)
    requires
        t.wf(),
        t.ptr_ok(p),
        0 <= m <= t.subtree_flat(p).len(),
    ensures
        m > 0 ==> t.left_of(p) + m <= t.doc_flat().len(),
        m > 0 ==> t.doc_flat().subrange(t.left_of(p) as int, t.left_of(p) + m) =~= t.subtree_flat(
            p,
        ).take(m),
{
    if m > 0 {
        lemma_doc_flat_index(t, p, m - 1);
    }
    assert forall|k: int| 0 <= k < m implies t.doc_flat()[t.left_of(p) + k] == t.subtree_flat(
        p,
    )[k] by {
        lemma_doc_flat_index(t, p, k);
    }
}

/// In a well formed tree, an internal node, and a leaf below the root, have runs under them.
pub proof fn lemma_subtree_nonempty(t: MarkerTree, p: NodePtr)
    requires
        t.wf(),
        t.ptr_ok(p),
        p is Internal || t.parent_of(p) is Internal,
    ensures
        t.subtree_flat(p).len() >= 1,
    decreases
            (match p {
                NodePtr::Internal(q) => t.internals@.len() - q,
                NodePtr::Leaf(_) => 0int,
            }),
{
    match p {
        NodePtr::Leaf(l) => {
            assert(t.leaf_wf(l as int));
        },
        NodePtr::Internal(q) => {
            assert(t.internal_wf(q as int));
            let n = t.internals@[q as int];
            assert(n.data@[0].1 is Some);
            let c = n.data@[0].1->0;
            assert(t.child_ok(q, c));
            lemma_subtree_nonempty(t, c);
            lemma_children_flat_step(t, q, 0);
            lemma_children_flat_prefix(t, q, 1, n.data@.len() as nat);
        },
    }
}

/// The characters shown before the first run under a child are those shown before its
/// parent's first run plus the counts of the slots before it.
pub proof fn lemma_text_before_child(t: MarkerTree, n: usize, x: NodePtr)
    requires
        t.wf(),
        t.counts_wf(),
        n < t.internals@.len(),
        t.ptr_ok(x),
        t.parent_of(x) == ParentPtr::Internal(n),
        t.has_child(n, x),
    ensures
        0 <= t.child_index(n, x) < child_count(t.internals@[n as int]),
        t.left_of(NodePtr::Internal(n)) <= t.left_of(x) <= t.doc_flat().len(),
        text_of(t, t.doc_flat().take(t.left_of(x) as int)) == text_of(
            t,
            t.doc_flat().take(t.left_of(NodePtr::Internal(n)) as int),
        ) + count_sum(t.internals@[n as int], t.child_index(n, x)),
{
    lemma_child_index(t, n, x);
    let ci = t.child_index(n, x);
    let nd = t.internals@[n as int];
    assert(t.internal_wf(n as int));
    assert(t.child_ok(n, nd.data@[ci].1->0));
    assert(n < t.up_rank(x));
    lemma_count_sum_text(t, n, ci);
    let pre = t.children_flat(n, ci as nat);
    let ln = t.left_of(NodePtr::Internal(n));
    assert(t.left_of(x) == pre.len() + ln);
    let len = nd.data@.len();
    lemma_children_flat_prefix(t, n, ci as nat, len as nat);
    lemma_children_flat_step(t, n, ci as nat);
    lemma_children_flat_prefix(t, n, (ci + 1) as nat, len as nat);
    lemma_doc_flat_subrange(t, NodePtr::Internal(n), pre.len() as int);
    lemma_subtree_nonempty(t, NodePtr::Internal(n));
    lemma_doc_flat_subrange(t, NodePtr::Internal(n), 1);
    if pre.len() > 0 {
        assert(t.subtree_flat(NodePtr::Internal(n)).take(pre.len() as int) =~= pre);
        lemma_text_of_concat(t, t.doc_flat().take(ln as int), pre);
        assert(t.doc_flat().take(t.left_of(x) as int) =~= t.doc_flat().take(ln as int) + pre);
    } else {
        assert(pre =~= Seq::<(usize, usize)>::empty());
    }
}

impl MarkerTree {
    pub open spec fn ptr_ok(self, p: NodePtr) -> bool {
        match p {
            NodePtr::Leaf(l) => l < self.leaves@.len(),
            NodePtr::Internal(q) => q < self.internals@.len(),
        }
    }

    pub open spec fn parent_of(self, p: NodePtr) -> ParentPtr {
        match p {
            NodePtr::Leaf(l) => self.leaves@[l as int].parent,
            NodePtr::Internal(q) => self.internals@[q as int].parent,
        }
    }

    /// The slot of internal node `q` that holds `p`.
    pub open spec fn child_index(self, q: usize, p: NodePtr) -> int {
        choose|i: int|
            0 <= i < self.internals@[q as int].data@.len() && self.internals@[q as int].data@[i].1
                == Some(p)
    }

    pub open spec fn has_child(self, q: usize, p: NodePtr) -> bool {
        exists|i: int|
            0 <= i < self.internals@[q as int].data@.len() && self.internals@[q as int].data@[i].1
                == Some(p)
    }

    /// The runs of leaf `l`, as (leaf, slot) pairs, in order.
    pub open spec fn leaf_flat(self, l: usize) -> Seq<(usize, usize)> {
        if l < self.leaves@.len() {
            Seq::new(self.leaves@[l as int].len as nat, |i: int| (l, i as usize))
        } else {
            Seq::empty()
        }
    }

    /// The runs under the first `k` slots of internal node `q`, in document order.
    pub open spec fn children_flat(self, q: usize, k: nat) -> Seq<(usize, usize)>
        decreases self.internals@.len() - q, k,
    {
        if q >= self.internals@.len() || k == 0 || k > self.internals@[q as int].data@.len() {
            Seq::empty()
        } else {
            let prev = self.children_flat(q, (k - 1) as nat);
            match self.internals@[q as int].data@[k - 1].1 {
                Some(NodePtr::Leaf(l)) => prev + self.leaf_flat(l),
                Some(NodePtr::Internal(x)) => if q < x && x < self.internals@.len() {
                    prev + self.children_flat(x, self.internals@[x as int].data@.len())
                } else {
                    prev
                },
                None => prev,
            }
        }
    }

    /// The runs under node `p`, in document order.
    pub open spec fn subtree_flat(self, p: NodePtr) -> Seq<(usize, usize)> {
        match p {
            NodePtr::Leaf(l) => self.leaf_flat(l),
            NodePtr::Internal(q) => self.children_flat(q, self.internals@[q as int].data@.len()),
        }
    }

    /// All the runs of the document, in order.
    pub open spec fn doc_flat(self) -> Seq<(usize, usize)> {
        self.subtree_flat(self.root)
    }

    /// Going up from a node never returns to it: parents come before their internal children.
    pub open spec fn up_rank(self, p: NodePtr) -> nat {
        match p {
            NodePtr::Leaf(_) => self.internals@.len(),
            NodePtr::Internal(x) => x as nat,
        }
    }

    /// The number of runs in the document before the first run under `p`.
    pub open spec fn left_of(self, p: NodePtr) -> nat
        decreases self.up_rank(p),
    {
        match self.parent_of(p) {
            ParentPtr::Root => 0,
            ParentPtr::Internal(pp) => if pp < self.up_rank(p) && pp < self.internals@.len() {
                self.children_flat(pp, self.child_index(pp, p) as nat).len() + self.left_of(
                    NodePtr::Internal(pp),
                )
            } else {
                0
            },
        }
    }

    /// `c` can stand in slot of internal node `q`: it exists, hangs from `q`, and, if
    /// internal, comes after `q`.
    pub open spec fn child_ok(self, q: usize, c: NodePtr) -> bool {
        &&& self.ptr_ok(c)
        &&& self.parent_of(c) == ParentPtr::Internal(q)
        &&& c matches NodePtr::Internal(x) ==> q < x
    }

    pub open spec fn leaf_wf(self, l: int) -> bool {
        let n = self.leaves@[l];
        &&& n.len as int <= n.data@.len()
        &&& forall|i: int| 0 <= i < n.data@.len() ==> (#[trigger] n.data@[i]).len != i32::MIN
        &&& match n.parent {
            ParentPtr::Root => self.root == NodePtr::Leaf(l as usize),
            ParentPtr::Internal(pp) => pp < self.internals@.len() && self.has_child(
                pp,
                NodePtr::Leaf(l as usize),
            ) && n.len >= 1,
        }
    }

    pub open spec fn internal_wf(self, q: int) -> bool {
        let n = self.internals@[q];
        &&& packed(n, child_count(n))
        &&& child_count(n) >= 1
        &&& forall|j: int|
            0 <= j < child_count(n) ==> self.child_ok(q as usize, (#[trigger] n.data@[j]).1->0)
        &&& forall|i: int, j: int|
            0 <= i < n.data@.len() && 0 <= j < n.data@.len() && i != j && (#[trigger] n.data@[i]).1
                is Some ==> n.data@[i].1 != (#[trigger] n.data@[j]).1
        &&& match n.parent {
            ParentPtr::Root => self.root == NodePtr::Internal(q as usize),
            ParentPtr::Internal(pp) => pp < q && self.has_child(pp, NodePtr::Internal(q as usize)),
        }
    }

    /// The nodes link up into one tree: every node hangs from the root or from an earlier
    /// internal node that lists it once, internal nodes have children in their first slots,
    /// and leaves below the root are not empty.
    /// Each child's count is the number of characters shown under it.
    pub open spec fn counts_wf(self) -> bool {
        forall|q: int, j: int|
            0 <= q < self.internals@.len() && 0 <= j < child_count(self.internals@[q])
                ==> (#[trigger] self.internals@[q].data@[j]).0 == text_of(
                self,
                self.subtree_flat(self.internals@[q].data@[j].1->0),
            )
    }

    pub open spec fn wf(self) -> bool {
        &&& self.ptr_ok(self.root)
        &&& self.parent_of(self.root) == ParentPtr::Root
        &&& forall|l: int| 0 <= l < self.leaves@.len() ==> #[trigger] self.leaf_wf(l)
        &&& forall|q: int| 0 <= q < self.internals@.len() ==> #[trigger] self.internal_wf(q)
    }
}

} // verus!
