use diamond_types::marker_tree::cursor::Cursor;
use diamond_types::marker_tree::{
    crdt_doc_root, CRDTLocation, Entry, MarkerTree, NodeInternal, NodeLeaf, NodePtr, ParentPtr,
};

fn entry(client: u16, seq: u32, len: i32) -> Entry {
    Entry { loc: CRDTLocation { client, seq }, len }
}

fn leaf(parent: ParentPtr, entries: Vec<Entry>) -> NodeLeaf {
    let len = entries.len() as u8;
    let mut data = entries;
    while data.len() < 4 {
        data.push(entry(0, 0, 0));
    }
    NodeLeaf { parent, len, data }
}

/// One leaf holding everything.
fn single_leaf_tree() -> MarkerTree {
    MarkerTree {
        root: NodePtr::Leaf(0),
        leaves: vec![leaf(ParentPtr::Root, vec![entry(1, 0, 3), entry(2, 10, -2), entry(1, 3, 4)])],
        internals: vec![],
    }
}

/// A root with two leaves.
fn two_leaf_tree() -> MarkerTree {
    MarkerTree {
        root: NodePtr::Internal(0),
        leaves: vec![
            leaf(ParentPtr::Internal(0), vec![entry(1, 0, 2), entry(1, 2, 3)]),
            leaf(ParentPtr::Internal(0), vec![entry(2, 0, 5)]),
        ],
        internals: vec![NodeInternal {
            parent: ParentPtr::Root,
            data: vec![(5, Some(NodePtr::Leaf(0))), (5, Some(NodePtr::Leaf(1))), (0, None)],
        }],
    }
}

#[test]
fn tell_inside_a_live_run() {
    let tree = single_leaf_tree();
    assert_eq!(Cursor::new(0, 2, 1).tell(&tree), CRDTLocation { client: 1, seq: 4 });
}

#[test]
fn tell_skips_deleted_runs_and_first_runs() {
    let tree = single_leaf_tree();
    // Run 1 is deleted and run 0 is the first of the document's first leaf.
    assert_eq!(Cursor::new(0, 1, 1).tell(&tree), crdt_doc_root());
    assert_eq!(Cursor::new(0, 0, 2).tell(&tree), crdt_doc_root());
    assert_eq!(crdt_doc_root(), CRDTLocation { client: u16::MAX, seq: 0 });
}

#[test]
fn tell_moves_back_into_the_previous_leaf() {
    let tree = two_leaf_tree();
    assert_eq!(Cursor::new(1, 0, 2).tell(&tree), CRDTLocation { client: 1, seq: 5 });
    assert_eq!(Cursor::new(0, 1, 2).tell(&tree), CRDTLocation { client: 1, seq: 4 });
}

#[test]
fn get_pos_counts_shown_characters() {
    let tree = single_leaf_tree();
    assert_eq!(Cursor::new(0, 2, 1).get_pos(&tree), 4);
    assert_eq!(Cursor::new(0, 1, 1).get_pos(&tree), 3);
    assert_eq!(Cursor::new(0, 0, 2).get_pos(&tree), 2);

    let tree = two_leaf_tree();
    assert_eq!(Cursor::new(1, 0, 2).get_pos(&tree), 7);
    assert_eq!(Cursor::new(0, 1, 1).get_pos(&tree), 3);
}

#[test]
fn roll_and_next_entry() {
    let tree = two_leaf_tree();
    let mut c = Cursor::new(0, 0, 2);
    c.roll_to_next(&tree, false);
    assert_eq!(c, Cursor::new(0, 1, 0));
    let mut d = Cursor::new(0, 0, 1);
    d.roll_to_next(&tree, false);
    assert_eq!(d, Cursor::new(0, 0, 1));
    let mut e = Cursor::new(0, 1, 3);
    e.roll_to_next(&tree, true);
    assert_eq!(e, Cursor::new(0, 2, 0));

    let mut f = Cursor::new(0, 0, 1);
    assert!(f.next_entry(&tree));
    assert_eq!(f, Cursor::new(0, 1, 0));
}

#[test]
fn entries_can_be_read_and_changed() {
    let mut tree = two_leaf_tree();
    let c = Cursor::new(0, 1, 0);
    assert_eq!(*c.get_entry(&tree), entry(1, 2, 3));
    c.get_entry_mut(&mut tree).len = -3;
    assert_eq!(*c.get_entry(&tree), entry(1, 2, -3));
    c.get_node_mut(&mut tree).len = 1;
    assert_eq!(tree.leaves[0].count_entries(), 1);
}

#[test]
fn internal_node_children() {
    let tree = two_leaf_tree();
    assert_eq!(tree.internals[0].count_children(), 2);
    assert_eq!(tree.internals[0].find_child(NodePtr::Leaf(1)), Some(1));
    assert_eq!(tree.internals[0].find_child(NodePtr::Internal(3)), None);
}

#[test]
fn entry_lengths() {
    assert_eq!(entry(0, 0, -4).get_seq_len(), 4);
    assert_eq!(entry(0, 0, -4).get_text_len(), 0);
    assert_eq!(entry(0, 0, 6).get_seq_len(), 6);
    assert_eq!(entry(0, 0, 6).get_text_len(), 6);
}
