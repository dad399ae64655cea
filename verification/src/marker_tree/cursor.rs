use vstd::prelude::*;

use super::{
    child_count, lemma_child_index, lemma_children_flat_step, lemma_children_flat_unused,
    count_sum, crdt_doc_root, doc_root, lemma_count_sum_mono, lemma_doc_flat_index,
    lemma_doc_flat_subrange, lemma_text_before_child, lemma_text_of_concat, lemma_text_of_take_mono,
    text_of, CRDTLocation, Entry, MarkerTree, NodeLeaf, NodePtr, ParentPtr,
};

verus! {

/// A position in a marker tree: `offset` items into the run in slot `idx` of leaf `node`.
#[derive(Copy, Clone, Debug, PartialEq, Eq, Structural)]
pub struct Cursor {
    pub node: usize,
    pub idx: usize,
    pub offset: u32,
}

/// The number of runs of the document before the cursor's run.
pub open spec fn entries_before(t: MarkerTree, c: Cursor) -> nat {
    t.left_of(NodePtr::Leaf(c.node)) + c.idx as nat
}

/// The run that slot `idx` of leaf `node` holds.
pub open spec fn entry_at(t: MarkerTree, node: usize, idx: usize) -> Entry {
    t.leaves@[node as int].data@[idx as int]
}

/// How far the walk down from an internal node still has to go.
pub open spec fn down_rank(t: MarkerTree, p: NodePtr) -> int {
    match p {
        NodePtr::Internal(x) => t.internals@.len() - x,
        NodePtr::Leaf(_) => 0,
    }
}

/// The run at a document position can answer `tell`: it is not the first run of its leaf
/// and it is not deleted.
pub open spec fn answers_tell(t: MarkerTree, pos: (usize, usize)) -> bool {
    pos.1 != 0 && entry_at(t, pos.0, pos.1).len >= 0
}

/// The last of the first `k` document positions of `s` whose run answers `tell`.
pub open spec fn last_answer_before(t: MarkerTree, s: Seq<(usize, usize)>, k: int) -> Option<int>
    decreases k,
{
    if k <= 0 {
        None
    } else if answers_tell(t, s[k - 1]) {
        Some(k - 1)
    } else {
        last_answer_before(t, s, k - 1)
    }
}

/// The run that `tell` reads for cursor `c`, with the offset it adds: the cursor's own run
/// where it answers, else the last run before it that does, taken at its end; none when no
/// run before it answers.
pub open spec fn tell_source(t: MarkerTree, c: Cursor) -> Option<(Entry, u32)> {
    if answers_tell(t, (c.node, c.idx)) {
        Some((entry_at(t, c.node, c.idx), c.offset))
    } else {
        match last_answer_before(t, t.doc_flat(), entries_before(t, c) as int) {
            Some(j) => {
                let e = entry_at(t, t.doc_flat()[j].0, t.doc_flat()[j].1);
                Some((e, e.len as u32))
            },
            None => None,
        }
    }
}

/// The location `tell` gives for cursor `c`.
pub open spec fn tell_result(t: MarkerTree, c: Cursor) -> CRDTLocation {
    match tell_source(t, c) {
        Some((e, offset)) => CRDTLocation { client: e.loc.client, seq: (e.loc.seq + offset) as u32 },
        None => doc_root(),
    }
}

/// The number of characters the document shows before the cursor: those of the runs before
/// its run, and the cursor's offset where its run shows characters.
pub open spec fn pos_of(t: MarkerTree, c: Cursor) -> nat {
    text_of(t, t.doc_flat().take(entries_before(t, c) as int)) + if entry_at(t, c.node, c.idx).len
        > 0 {
        c.offset as nat
    } else {
        0
    }
}

/// In a well formed tree, a cursor's count of runs before it picks out its own run among the
/// document's runs: no two runs of the document share a position.
pub proof fn lemma_cursor_run_in_document(t: MarkerTree, c: Cursor)
    requires
        t.wf(),
        c.node < t.leaves@.len(),
        c.idx < t.leaves@[c.node as int].len,
    ensures
        entries_before(t, c) < t.doc_flat().len(),
        t.doc_flat()[entries_before(t, c) as int] == (c.node, c.idx),
{
    lemma_doc_flat_index(t, NodePtr::Leaf(c.node), c.idx as int);
}

/// `last_answer_before` picks the last of the first `k` positions that answers, or none when
/// none does.
proof fn lemma_last_answer(t: MarkerTree, s: Seq<(usize, usize)>, k: int)
    requires
        0 <= k <= s.len(),
    ensures
        match last_answer_before(t, s, k) {
            Some(j) => 0 <= j < k && answers_tell(t, s[j]) && forall|i: int|
                j < i < k ==> !answers_tell(t, #[trigger] s[i]),
            None => forall|i: int| 0 <= i < k ==> !answers_tell(t, #[trigger] s[i]),
        },
    decreases k,
{
    if k > 0 {
        lemma_last_answer(t, s, k - 1);
    }
}

/// The runs before a cursor are a start of the document's runs.
proof fn lemma_cursor_within_document(t: MarkerTree, c: Cursor)
    requires
        t.wf(),
        c.node < t.leaves@.len(),
        c.idx <= t.leaves@[c.node as int].len,
    ensures
        entries_before(t, c) <= t.doc_flat().len(),
{
    assert(t.leaf_wf(c.node as int));
    lemma_doc_flat_subrange(t, NodePtr::Leaf(c.node), c.idx as int);
    if t.leaves@[c.node as int].parent is Internal {
        super::lemma_subtree_nonempty(t, NodePtr::Leaf(c.node));
        lemma_doc_flat_subrange(t, NodePtr::Leaf(c.node), 1);
    }
}

/// What `tell` gives, in terms of the document: where the cursor's own run is live and not
/// the first of its leaf, the location `offset` into it; otherwise the location at the end of
/// the last run before the cursor, in document order, that is live and not the first of its
/// leaf; and the document's root location only when no run before the cursor is.
pub proof fn lemma_tell_is_last_live_run(t: MarkerTree, c: Cursor)
    requires
        t.wf(),
        c.node < t.leaves@.len(),
        c.idx <= t.leaves@[c.node as int].len,
        c.idx < t.leaves@[c.node as int].data@.len(),
    ensures
        entries_before(t, c) <= t.doc_flat().len(),
        c.idx != 0 && entry_at(t, c.node, c.idx).len >= 0 ==> tell_result(t, c) == (CRDTLocation {
            client: entry_at(t, c.node, c.idx).loc.client,
            seq: (entry_at(t, c.node, c.idx).loc.seq + c.offset) as u32,
        }),
        !(c.idx != 0 && entry_at(t, c.node, c.idx).len >= 0) && (forall|i: int|
            0 <= i < entries_before(t, c) ==> !((#[trigger] t.doc_flat()[i]).1 != 0 && entry_at(
                t,
                t.doc_flat()[i].0,
                t.doc_flat()[i].1,
            ).len >= 0)) ==> tell_result(t, c) == doc_root(),
        !(c.idx != 0 && entry_at(t, c.node, c.idx).len >= 0) && (exists|i: int|
            0 <= i < entries_before(t, c) && (#[trigger] t.doc_flat()[i]).1 != 0 && entry_at(
                t,
                t.doc_flat()[i].0,
                t.doc_flat()[i].1,
            ).len >= 0) ==> exists|j: int|
            #![trigger t.doc_flat()[j]]
            0 <= j < entries_before(t, c) && t.doc_flat()[j].1 != 0 && entry_at(
                t,
                t.doc_flat()[j].0,
                t.doc_flat()[j].1,
            ).len >= 0 && (forall|i: int|
                j < i < entries_before(t, c) ==> !((#[trigger] t.doc_flat()[i]).1 != 0 && entry_at(
                    t,
                    t.doc_flat()[i].0,
                    t.doc_flat()[i].1,
                ).len >= 0)) && tell_result(t, c) == (CRDTLocation {
                client: entry_at(t, t.doc_flat()[j].0, t.doc_flat()[j].1).loc.client,
                seq: (entry_at(t, t.doc_flat()[j].0, t.doc_flat()[j].1).loc.seq + entry_at(
                    t,
                    t.doc_flat()[j].0,
                    t.doc_flat()[j].1,
                ).len) as u32,
            }),
{
    lemma_cursor_within_document(t, c);
    let k0 = entries_before(t, c) as int;
    lemma_last_answer(t, t.doc_flat(), k0);
    match last_answer_before(t, t.doc_flat(), k0) {
        Some(j) => {
            assert(t.doc_flat()[j] == t.doc_flat()[j]);
        },
        None => {},
    }
}

impl Cursor {
    pub fn new(node: usize, idx: usize, offset: u32) -> (c: Self)
        ensures
            c == (Cursor { node, idx, offset }),
    {
        Cursor { node, idx, offset }
    }

    /// The run the cursor is in.
    pub fn get_entry<'a>(&self, tree: &'a MarkerTree) -> (e: &'a Entry)
        requires
            self.node < tree.leaves@.len(),
            self.idx < tree.leaves@[self.node as int].data@.len(),
        ensures
            *e == entry_at(*tree, self.node, self.idx),
    {
        &tree.leaves[self.node].data[self.idx]
    }

    /// Moves back to the previous run of the document. Returns true if there is one, false
    /// (leaving the cursor as it was) if the cursor is at the start of the document already.
    fn prev_entry(&mut self, tree: &MarkerTree) -> (r: bool)
        requires
            tree.wf(),
            old(self).node < tree.leaves@.len(),
            old(self).idx <= tree.leaves@[old(self).node as int].len,
        ensures
            r == (entries_before(*tree, *old(self)) > 0),
            r ==> {
                &&& final(self).node < tree.leaves@.len()
                &&& final(self).idx < tree.leaves@[final(self).node as int].len
                &&& entries_before(*tree, *final(self)) + 1 == entries_before(*tree, *old(self))
                &&& final(self).offset == if old(self).idx > 0 {
                    entry_at(*tree, final(self).node, final(self).idx).len as u32
                } else {
                    entry_at(*tree, final(self).node, final(self).idx).seq_len() as u32
                }
            },
            !r ==> *final(self) == *old(self),
    {
        let ghost start = *self;
        proof {
            assert(tree.leaf_wf(self.node as int));
        }
        if self.idx > 0 {
            self.idx -= 1;
            self.offset = self.get_entry(tree).len as u32;
            true
        } else {
            let node = &tree.leaves[self.node];
            let mut parent = node.parent;
            let mut node_ptr = NodePtr::Leaf(self.node);
            let ghost target = entries_before(*tree, start);
            // Go up until a node that has a child before the one we came from.
            loop
                invariant_except_break
                    tree.wf(),
                    start == *old(self),
                    target == entries_before(*tree, start),
                    *self == start,
                    start.idx == 0,
                    tree.ptr_ok(node_ptr),
                    tree.parent_of(node_ptr) == parent,
                    tree.left_of(node_ptr) == target,
                ensures
                    tree.wf(),
                    start == *old(self),
                    target == entries_before(*tree, start),
                    *self == start,
                    tree.ptr_ok(node_ptr),
                    tree.parent_of(node_ptr) matches ParentPtr::Internal(_),
                    tree.left_of(node_ptr) + tree.subtree_flat(node_ptr).len() == target,
                decreases tree.up_rank(node_ptr),
            {
                proof {
                    match node_ptr {
                        NodePtr::Leaf(l) => assert(tree.leaf_wf(l as int)),
                        NodePtr::Internal(q) => assert(tree.internal_wf(q as int)),
                    }
                }
                match parent {
                    ParentPtr::Root => {
                        assert(tree.left_of(node_ptr) == 0);
                        assert(target == 0);
                        return false;
                    },
                    ParentPtr::Internal(n) => {
                        let node_ref = &tree.internals[n];
                        proof {
                            lemma_child_index(*tree, n, node_ptr);
                            assert(tree.internal_wf(n as int));
                        }
                        let found = node_ref.find_child(node_ptr);
                        let idx = found.unwrap();
                        assert(idx == tree.child_index(n, node_ptr));
                        if idx > 0 {
                            let ghost prev_child = node_ref.data@[idx - 1].1->0;
                            proof {
                                assert(node_ref.data@[idx as int].1 is Some);
                                assert(node_ref.data@[idx - 1].1 is Some);
                                assert(tree.child_ok(n, prev_child));
                                lemma_children_flat_step(*tree, n, (idx - 1) as nat);
                                lemma_child_index(*tree, n, prev_child);
                                assert(tree.has_child(n, prev_child));
                            }
                            node_ptr = node_ref.data[idx - 1].1.unwrap();
                            assert(tree.child_index(n, node_ptr) == idx - 1);
                            break;
                        } else {
                            node_ptr = NodePtr::Internal(n);
                            parent = node_ref.parent;
                        }
                    },
                }
            }
            // Go down to the last run under that child.
            loop
                invariant
                    tree.wf(),
                    start == *old(self),
                    target == entries_before(*tree, start),
                    tree.ptr_ok(node_ptr),
                    tree.parent_of(node_ptr) matches ParentPtr::Internal(_),
                    tree.left_of(node_ptr) + tree.subtree_flat(node_ptr).len() == target,
                    self.idx == start.idx,
                    start.idx == 0,
                decreases down_rank(*tree, node_ptr),
            {
                match node_ptr {
                    NodePtr::Internal(n) => {
                        let node_ref = &tree.internals[n];
                        proof {
                            assert(tree.internal_wf(n as int));
                        }
                        let num_children = node_ref.count_children();
                        let ghost last = node_ref.data@[num_children - 1].1->0;
                        proof {
                            assert(node_ref.data@[num_children - 1].1 is Some);
                            assert(tree.child_ok(n, last));
                            lemma_children_flat_unused(
                                *tree,
                                n,
                                node_ref.data@.len() as nat,
                            );
                            lemma_children_flat_step(*tree, n, (num_children - 1) as nat);
                            match last {
                                NodePtr::Leaf(l) => assert(tree.leaf_wf(l as int)),
                                NodePtr::Internal(q) => assert(tree.internal_wf(q as int)),
                            }
                            match tree.parent_of(last) {
                                ParentPtr::Internal(pp) => {
                                    lemma_child_index(*tree, pp, last);
                                },
                                ParentPtr::Root => {},
                            }
                            assert(tree.has_child(n, last));
                            lemma_child_index(*tree, n, last);
                        }
                        node_ptr = node_ref.data[num_children - 1].1.unwrap();
                    },
                    NodePtr::Leaf(n) => {
                        let node_ref = &tree.leaves[n];
                        proof {
                            assert(tree.leaf_wf(n as int));
                        }
                        self.node = n;
                        self.idx = node_ref.count_entries() - 1;
                        self.offset = node_ref.data[self.idx].get_seq_len();
                        assert(tree.subtree_flat(node_ptr).len() == node_ref.len);
                        assert(entries_before(*tree, *self) + 1 == target);
                        return true;
                    },
                }
            }
        }
    }

    /// The CRDT location just after the last live item at or before the cursor, or the
    /// document's root location when there is none.
    pub fn tell(self, tree: &MarkerTree) -> (r: CRDTLocation)
        requires
            tree.wf(),
            self.node < tree.leaves@.len(),
            self.idx <= tree.leaves@[self.node as int].len,
            self.idx < tree.leaves@[self.node as int].data@.len(),
            tell_source(*tree, self) matches Some((e, offset)) ==> e.loc.seq + offset <= u32::MAX,
        ensures
            r == tell_result(*tree, self),
    {
        let mut cur = self;
        let ghost c0 = self;
        let ghost k0 = entries_before(*tree, c0) as int;
        let ghost flat = tree.doc_flat();
        while cur.idx == 0 || cur.get_entry(tree).len < 0
            invariant
                tree.wf(),
                flat == tree.doc_flat(),
                c0 == self,
                k0 == entries_before(*tree, c0),
                c0.node < tree.leaves@.len(),
                c0.idx < tree.leaves@[c0.node as int].data@.len(),
                tell_source(*tree, c0) matches Some((e, offset)) ==> e.loc.seq + offset
                    <= u32::MAX,
                cur.node < tree.leaves@.len(),
                cur.idx <= tree.leaves@[cur.node as int].len,
                cur.idx < tree.leaves@[cur.node as int].data@.len(),
                cur == c0 || {
                    &&& entries_before(*tree, cur) < k0
                    &&& !answers_tell(*tree, (c0.node, c0.idx))
                    &&& last_answer_before(*tree, flat, k0) == last_answer_before(
                        *tree,
                        flat,
                        entries_before(*tree, cur) + 1int,
                    )
                    &&& flat[entries_before(*tree, cur) as int] == (cur.node, cur.idx)
                    &&& (entry_at(*tree, cur.node, cur.idx).len >= 0 ==> cur.offset
                        == entry_at(*tree, cur.node, cur.idx).len as u32)
                },
            decreases entries_before(*tree, cur),
        {
            let ghost before = cur;
            proof {
                assert(tree.leaf_wf(cur.node as int));
            }
            let exists = cur.prev_entry(tree);
            if !exists {
                proof {
                    assert(entries_before(*tree, before) == 0);
                    assert(!answers_tell(*tree, (before.node, before.idx)));
                    if before != c0 {
                        assert(flat[0] == (before.node, before.idx));
                        assert(last_answer_before(*tree, flat, 1) == last_answer_before(
                            *tree,
                            flat,
                            0,
                        ));
                    } else {
                        assert(k0 == 0);
                    }
                    assert(last_answer_before(*tree, flat, k0) is None);
                    assert(tell_source(*tree, c0) is None);
                }
                return crdt_doc_root();
            }
            proof {
                assert(tree.leaf_wf(cur.node as int));
                lemma_doc_flat_index(*tree, NodePtr::Leaf(cur.node), cur.idx as int);
            }
        }
        let entry = cur.get_entry(tree);
        CRDTLocation { client: entry.loc.client, seq: entry.loc.seq + cur.offset }
    }

    /// The number of characters the document shows before the cursor.
    pub fn get_pos(&self, tree: &MarkerTree) -> (r: u32)
        requires
            tree.wf(),
            tree.counts_wf(),
            self.node < tree.leaves@.len(),
            self.idx <= tree.leaves@[self.node as int].len,
            self.idx < tree.leaves@[self.node as int].data@.len(),
            pos_of(*tree, *self) <= u32::MAX,
        ensures
            r == pos_of(*tree, *self),
    {
        let node = &tree.leaves[self.node];
        let ghost lf = tree.leaf_flat(self.node);
        let ghost doc = tree.doc_flat();
        let ghost left = tree.left_of(NodePtr::Leaf(self.node));
        let ghost target = pos_of(*tree, *self);
        proof {
            assert(tree.leaf_wf(self.node as int));
            lemma_doc_flat_subrange(*tree, NodePtr::Leaf(self.node), self.idx as int);
            if self.idx > 0 {
                lemma_text_of_concat(*tree, doc.take(left as int), lf.take(self.idx as int));
                assert(doc.take(left + self.idx) =~= doc.take(left as int) + lf.take(
                    self.idx as int,
                ));
            } else {
                assert(lf.take(0) =~= Seq::<(usize, usize)>::empty());
            }
            assert(text_of(*tree, doc.take(left + self.idx)) == text_of(*tree, doc.take(left as int))
                + text_of(*tree, lf.take(self.idx as int)));
            if node.parent is Internal {
                super::lemma_subtree_nonempty(*tree, NodePtr::Leaf(self.node));
                lemma_doc_flat_subrange(*tree, NodePtr::Leaf(self.node), 1);
            }
        }
        let mut pos: u32 = 0;
        let mut i: usize = 0;
        while i < self.idx
            invariant
                self.node < tree.leaves@.len(),
                self.idx <= tree.leaves@[self.node as int].len,
                *node == tree.leaves@[self.node as int],
                node.len <= node.data@.len(),
                lf == tree.leaf_flat(self.node),
                0 <= i <= self.idx,
                pos == text_of(*tree, lf.take(i as int)),
                text_of(*tree, lf.take(self.idx as int)) <= u32::MAX,
            decreases self.idx - i,
        {
            proof {
                lemma_text_of_take_mono(*tree, lf, i + 1, self.idx as int);
                assert(lf.take(i + 1).drop_last() =~= lf.take(i as int));
            }
            pos += node.data[i].get_text_len();
            i += 1;
        }
        let local_len = node.data[self.idx].len;
        if local_len > 0 {
            pos += self.offset;
        }
        let mut parent = node.parent;
        let mut node_ptr = NodePtr::Leaf(self.node);
        loop
            invariant
                tree.wf(),
                tree.counts_wf(),
                doc == tree.doc_flat(),
                tree.ptr_ok(node_ptr),
                tree.parent_of(node_ptr) == parent,
                tree.left_of(node_ptr) <= doc.len(),
                pos + text_of(*tree, doc.take(tree.left_of(node_ptr) as int)) == target,
                target <= u32::MAX,
            ensures
                pos == target,
            decreases tree.up_rank(node_ptr),
        {
            proof {
                match node_ptr {
                    NodePtr::Leaf(l) => assert(tree.leaf_wf(l as int)),
                    NodePtr::Internal(q) => assert(tree.internal_wf(q as int)),
                }
            }
            match parent {
                ParentPtr::Root => {
                    assert(doc.take(0) =~= Seq::<(usize, usize)>::empty());
                    break;
                },
                ParentPtr::Internal(n) => {
                    let node_ref = &tree.internals[n];
                    proof {
                        lemma_text_before_child(*tree, n, node_ptr);
                    }
                    let found = node_ref.find_child(node_ptr);
                    let idx = found.unwrap();
                    proof {
                        super::lemma_child_index(*tree, n, node_ptr);
                    }
                    assert(idx == tree.child_index(n, node_ptr));
                    let ghost pos0 = pos;
                    let mut j: usize = 0;
                    while j < idx
                        invariant
                            *node_ref == tree.internals@[n as int],
                            0 <= j <= idx,
                            idx < node_ref.data@.len(),
                            pos == pos0 + count_sum(*node_ref, j as int),
                            pos0 + count_sum(*node_ref, idx as int) <= u32::MAX,
                        decreases idx - j,
                    {
                        proof {
                            lemma_count_sum_mono(*node_ref, j + 1, idx as int);
                        }
                        pos += node_ref.data[j].0;
                        j += 1;
                    }
                    node_ptr = NodePtr::Internal(n);
                    parent = node_ref.parent;
                },
            }
        }
        pos
    }

    /// The cursor's leaf, to change in place.
    pub fn get_node_mut<'a>(&self, tree: &'a mut MarkerTree) -> (n: &'a mut NodeLeaf)
        requires
            self.node < old(tree).leaves@.len(),
        ensures
            *n == old(tree).leaves@[self.node as int],
            final(tree).root == old(tree).root,
            final(tree).internals == old(tree).internals,
            final(tree).leaves@ == old(tree).leaves@.update(self.node as int, *final(n)),
    {
        &mut tree.leaves[self.node]
    }

    /// The run the cursor is in, to change in place.
    pub fn get_entry_mut<'a>(&self, tree: &'a mut MarkerTree) -> (e: &'a mut Entry)
        requires
            self.node < old(tree).leaves@.len(),
            self.idx < old(tree).leaves@[self.node as int].data@.len(),
        ensures
            *e == entry_at(*old(tree), self.node, self.idx),
            final(tree).root == old(tree).root,
            final(tree).internals == old(tree).internals,
            final(tree).leaves@ == old(tree).leaves@.update(
                self.node as int,
                NodeLeaf {
                    data: final(tree).leaves@[self.node as int].data,
                    ..old(tree).leaves@[self.node as int]
                },
            ),
            final(tree).leaves@[self.node as int].data@ == old(tree).leaves@[
                self.node as int
            ].data@.update(self.idx as int, *final(e)),
    {
        &mut tree.leaves[self.node].data[self.idx]
    }

    /// Moves to the start of the next run of the same leaf. Moving on into the next leaf is
    /// not supported: the cursor must not be at the leaf's last run.
    pub fn next_entry(&mut self, tree: &MarkerTree) -> (r: bool)
        requires
            old(self).node < tree.leaves@.len(),
            old(self).idx + 1 < tree.leaves@[old(self).node as int].len,
        ensures
            r,
            *final(self) == (Cursor { node: old(self).node, idx: (old(self).idx + 1) as usize, offset: 0 }),
            entries_before(*tree, *final(self)) == entries_before(*tree, *old(self)) + 1,
    {
        let node = &tree.leaves[self.node];
        if self.idx + 1 < node.len as usize {
            self.idx += 1;
            self.offset = 0;
            true
        } else {
            // The requirement above rules this branch out.
            false
        }
    }

    /// Where the cursor stands at the end of its run, moves it to the start of the next slot
    /// of its leaf. Without `stick_end` it may not be left past the leaf's last run, since
    /// moving on into the next leaf is not supported.
    pub fn roll_to_next(&mut self, tree: &MarkerTree, stick_end: bool)
        requires
            tree.wf(),
            old(self).node < tree.leaves@.len(),
            old(self).idx < tree.leaves@[old(self).node as int].data@.len(),
            old(self).offset <= entry_at(*tree, old(self).node, old(self).idx).seq_len(),
            old(self).offset == entry_at(*tree, old(self).node, old(self).idx).seq_len()
                && !stick_end ==> old(self).idx + 1 < tree.leaves@[old(self).node as int].len,
        ensures
            old(self).offset == entry_at(*tree, old(self).node, old(self).idx).seq_len()
                ==> *final(self) == (Cursor {
                node: old(self).node,
                idx: (old(self).idx + 1) as usize,
                offset: 0,
            }),
            old(self).offset != entry_at(*tree, old(self).node, old(self).idx).seq_len()
                ==> *final(self) == *old(self),
    {
        let node = &tree.leaves[self.node];
        proof {
            assert(tree.leaf_wf(self.node as int));
        }
        let seq_len = node.data[self.idx].get_seq_len();
        assert(self.idx < node.data.len());
        if self.offset == seq_len {
            self.offset = 0;
            self.idx += 1;
            if !stick_end && self.idx >= node.len as usize {
                self.next_entry(tree);
            }
        }
    }
}

} // verus!