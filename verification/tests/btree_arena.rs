use ads::trees::b_tree::arena::{BTree, BTreeNodeView};
use std::collections::BTreeSet;

fn keys_in_order<const T: usize>(tree: &BTree<i32, (), T>) -> Vec<i32> {
    let mut out = Vec::new();
    let mut it = tree.iter();
    while let Some((k, _)) = it.next() {
        out.push(k);
    }
    out
}

fn assert_btree_properties<V: Clone>(root: Option<BTreeNodeView<'_, i32, V>>, degree: usize) {
    if let Some(root) = root {
        check_node(root, degree, true);
    }
}

fn check_node<V: Clone>(node: BTreeNodeView<'_, i32, V>, t: usize, is_root: bool) {
    let keys = node.keys();
    let key_count = keys.len();
    if !is_root {
        assert!(key_count >= t - 1, "node underflow");
    }
    assert!(key_count < 2 * t, "node overflow");
    for i in 0..key_count.saturating_sub(1) {
        assert!(keys[i] <= keys[i + 1], "keys must be sorted");
    }
    let children = node.children();
    if node.is_leaf() {
        assert!(children.is_empty(), "leaf nodes must not have children");
    } else {
        assert_eq!(children.len(), key_count + 1, "invalid child count");
        for child in children {
            assert!(child.parent().is_some(), "child must have a parent");
            check_node(child, t, false);
        }
    }
}

#[test]
fn btree_arena_t2_empty_tree() {
    let tree: BTree<i32, (), 2> = BTree::new();
    assert!(tree.min_cursor().is_none());
    assert!(tree.max_cursor().is_none());
    assert!(!tree.contains_key(&5));
    assert_eq!(tree.height(), 0);
    assert_eq!(tree.node_count(), 0);
    assert_btree_properties(tree.root_view(), tree.degree());
}

#[test]
fn btree_arena_t2_insert_contains_and_boundaries() {
    let mut tree: BTree<i32, (), 2> = BTree::new();
    for value in [10, 20, 5, 6, 12] {
        tree.insert(value, ());
    }
    assert!(tree.contains_key(&10));
    assert!(tree.contains_key(&12));
    assert!(!tree.contains_key(&100));
    assert_eq!(*tree.min_cursor().expect("min").key(), 5);
    assert_eq!(*tree.max_cursor().expect("max").key(), 20);
    assert_btree_properties(tree.root_view(), tree.degree());
}

#[test]
fn btree_arena_t2_predecessor_successor() {
    let mut tree: BTree<i32, (), 2> = BTree::new();
    for value in [10, 20, 30, 40, 50, 60, 70, 80, 90] {
        tree.insert(value, ());
    }
    let c30 = tree.cursor(&30).expect("c30");
    let c40 = tree.cursor(&40).expect("c40");
    let c90 = tree.cursor(&90).expect("c90");
    let c10 = tree.cursor(&10).expect("c10");
    assert_eq!(*c30.successor().expect("succ").key(), 40);
    assert_eq!(*c40.predecessor().expect("pred").key(), 30);
    assert!(c90.successor().is_none());
    assert!(c10.predecessor().is_none());
    assert_btree_properties(tree.root_view(), tree.degree());
}

#[test]
fn btree_arena_t2_delete_leaf_and_internal() {
    let mut tree: BTree<i32, (), 2> = BTree::new();
    for value in [10, 20, 30, 40, 50, 60] {
        tree.insert(value, ());
    }
    assert!(tree.remove(&40).is_some());
    assert!(tree.remove(&20).is_some());
    assert!(tree.remove(&200).is_none());
    assert_btree_properties(tree.root_view(), tree.degree());
}

#[test]
fn btree_arena_t2_larger_delete_sequence() {
    let mut tree: BTree<i32, (), 2> = BTree::new();
    for value in 1..=50 {
        tree.insert(value, ());
    }
    assert_btree_properties(tree.root_view(), tree.degree());
    for value in (1..=50).step_by(3) {
        assert!(tree.remove(&value).is_some());
        assert_btree_properties(tree.root_view(), tree.degree());
    }
    for value in 1..=50 {
        if value % 3 == 1 {
            assert!(!tree.contains_key(&value));
        } else {
            assert!(tree.contains_key(&value));
        }
    }
}

#[test]
fn btree_arena_t2_mixed_operations_match_btreemap_model() {
    let mut tree: BTree<i32, (), 2> = BTree::new();
    let mut model = BTreeSet::new();
    for key in [18, 7, 25, 3, 11, 20, 30] {
        assert_eq!(tree.insert(key, ()).is_some(), !model.insert(key));
        assert_btree_properties(tree.root_view(), tree.degree());
    }
    for key in [11, 28, 1] {
        assert_eq!(tree.insert(key, ()).is_some(), !model.insert(key));
        assert_btree_properties(tree.root_view(), tree.degree());
    }
    for key in [7, 20, 999] {
        assert_eq!(tree.remove(&key).is_some(), model.remove(&key));
        assert_btree_properties(tree.root_view(), tree.degree());
    }
    let tree_items = keys_in_order(&tree);
    let model_items: Vec<_> = model.into_iter().collect();
    assert_eq!(tree_items, model_items);
}

#[test]
fn btree_arena_t3_empty_tree() {
    let tree: BTree<i32, (), 3> = BTree::new();
    assert!(tree.min_cursor().is_none());
    assert!(tree.max_cursor().is_none());
    assert!(!tree.contains_key(&5));
    assert_eq!(tree.height(), 0);
    assert_eq!(tree.node_count(), 0);
    assert_btree_properties(tree.root_view(), tree.degree());
}

#[test]
fn btree_arena_t3_insert_contains_and_boundaries() {
    let mut tree: BTree<i32, (), 3> = BTree::new();
    for value in [10, 20, 5, 6, 12] {
        tree.insert(value, ());
    }
    assert!(tree.contains_key(&10));
    assert!(tree.contains_key(&12));
    assert!(!tree.contains_key(&100));
    assert_eq!(*tree.min_cursor().expect("min").key(), 5);
    assert_eq!(*tree.max_cursor().expect("max").key(), 20);
    assert_btree_properties(tree.root_view(), tree.degree());
}

#[test]
fn btree_arena_t3_predecessor_successor() {
    let mut tree: BTree<i32, (), 3> = BTree::new();
    for value in [10, 20, 30, 40, 50, 60, 70, 80, 90] {
        tree.insert(value, ());
    }
    let c30 = tree.cursor(&30).expect("c30");
    let c40 = tree.cursor(&40).expect("c40");
    let c90 = tree.cursor(&90).expect("c90");
    let c10 = tree.cursor(&10).expect("c10");
    assert_eq!(*c30.successor().expect("succ").key(), 40);
    assert_eq!(*c40.predecessor().expect("pred").key(), 30);
    assert!(c90.successor().is_none());
    assert!(c10.predecessor().is_none());
    assert_btree_properties(tree.root_view(), tree.degree());
}

#[test]
fn btree_arena_t3_delete_leaf_and_internal() {
    let mut tree: BTree<i32, (), 3> = BTree::new();
    for value in [10, 20, 30, 40, 50, 60] {
        tree.insert(value, ());
    }
    assert!(tree.remove(&40).is_some());
    assert!(tree.remove(&20).is_some());
    assert!(tree.remove(&200).is_none());
    assert_btree_properties(tree.root_view(), tree.degree());
}

#[test]
fn btree_arena_t3_larger_delete_sequence() {
    let mut tree: BTree<i32, (), 3> = BTree::new();
    for value in 1..=50 {
        tree.insert(value, ());
    }
    assert_btree_properties(tree.root_view(), tree.degree());
    for value in (1..=50).step_by(3) {
        assert!(tree.remove(&value).is_some());
        assert_btree_properties(tree.root_view(), tree.degree());
    }
    for value in 1..=50 {
        if value % 3 == 1 {
            assert!(!tree.contains_key(&value));
        } else {
            assert!(tree.contains_key(&value));
        }
    }
}

#[test]
fn btree_arena_t3_mixed_operations_match_btreemap_model() {
    let mut tree: BTree<i32, (), 3> = BTree::new();
    let mut model = BTreeSet::new();
    for key in [18, 7, 25, 3, 11, 20, 30] {
        assert_eq!(tree.insert(key, ()).is_some(), !model.insert(key));
        assert_btree_properties(tree.root_view(), tree.degree());
    }
    for key in [11, 28, 1] {
        assert_eq!(tree.insert(key, ()).is_some(), !model.insert(key));
        assert_btree_properties(tree.root_view(), tree.degree());
    }
    for key in [7, 20, 999] {
        assert_eq!(tree.remove(&key).is_some(), model.remove(&key));
        assert_btree_properties(tree.root_view(), tree.degree());
    }
    let tree_items = keys_in_order(&tree);
    let model_items: Vec<_> = model.into_iter().collect();
    assert_eq!(tree_items, model_items);
}

#[test]
fn btree_arena_values_replace_and_remove_return() {
    let mut tree: BTree<i32, i32, 2> = BTree::new();
    assert_eq!(tree.insert(1, 10), None);
    assert_eq!(tree.insert(2, 20), None);
    assert_eq!(tree.insert(1, 11), Some(10));
    assert_eq!(tree.len(), 2);
    assert_eq!(*tree.cursor(&1).expect("c1").value(), 11);
    assert_eq!(tree.remove(&1), Some(11));
    assert_eq!(tree.remove(&1), None);
    assert_eq!(tree.len(), 1);
    tree.clear();
    assert!(tree.is_empty());
    assert!(tree.root_view().is_none());
}

#[test]
fn btree_arena_root_split_and_collapse() {
    let mut tree: BTree<i32, (), 2> = BTree::new();
    for value in [1, 2, 3] {
        tree.insert(value, ());
    }
    assert_eq!(tree.height(), 1);
    assert_eq!(tree.node_count(), 1);
    tree.insert(4, ());
    assert_eq!(tree.height(), 2);
    assert_eq!(tree.node_count(), 3);
    let root = tree.root_view().expect("root");
    assert_eq!(root.keys(), vec![2]);
    assert!(!root.is_leaf());
    assert!(root.parent().is_none());
    let kids = root.children();
    assert_eq!(kids.len(), 2);
    assert_eq!(kids[0].keys(), vec![1]);
    assert_eq!(kids[1].keys(), vec![3, 4]);
    assert_eq!(kids[1].entries(), vec![(3, ()), (4, ())]);
    assert_eq!(kids[1].key_count(), 2);
    assert_eq!(kids[1].parent().expect("parent").keys(), vec![2]);
    assert!(tree.remove(&1).is_some());
    assert_eq!(tree.height(), 2);
    let root = tree.root_view().expect("root");
    assert_eq!(root.keys(), vec![3]);
    let kids = root.children();
    assert_eq!(kids[0].keys(), vec![2]);
    assert_eq!(kids[1].keys(), vec![4]);
    assert!(tree.remove(&2).is_some());
    assert_eq!(tree.height(), 1);
    assert_eq!(tree.node_count(), 1);
    assert_eq!(tree.root_view().expect("root").keys(), vec![3, 4]);
    assert_btree_properties(tree.root_view(), tree.degree());
}

#[test]
fn btree_arena_cursor_details() {
    let mut tree: BTree<i32, i32, 2> = BTree::new();
    for value in 1..=10 {
        tree.insert(value, value * 100);
    }
    let c = tree.cursor(&7).expect("c7");
    assert_eq!(*c.value(), 700);
    let node = c.node_view();
    assert_eq!(node.keys()[c.index()], 7);
    assert_eq!(c.is_leaf(), node.is_leaf());
    assert_eq!(tree.node_height(&c) <= tree.height(), true);
    let same = tree.view_from_cursor(&c);
    assert_eq!(same.keys(), node.keys());
    assert_eq!(*tree.first_cursor().expect("first").key(), 1);
    assert_eq!(*tree.last_cursor().expect("last").key(), 10);
    let mut it = tree.iter();
    let mut sum = 0;
    while let Some((k, v)) = it.next() {
        assert_eq!(v, k * 100);
        sum += k;
    }
    assert_eq!(sum, 55);
    assert!(tree.cursor(&11).is_none());
    assert_eq!(tree.degree(), 2);
}
