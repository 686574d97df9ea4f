use ads::trees::red_black_tree::safe::RedBlackTree;
use ads::trees::red_black_tree::engine::NodeColor;
use std::collections::BTreeSet;

fn keys_in_order(tree: &RedBlackTree<i32, ()>) -> Vec<i32> {
    let mut out = Vec::new();
    let mut it = tree.iter();
    while let Some((k, _)) = it.next() {
        out.push(k);
    }
    out
}

fn check_rb(node: &ads::trees::red_black_tree::safe::RbNodeView<'_, i32, ()>) -> usize {
    if node.color() == NodeColor::Red {
        if let Some(l) = node.left() {
            assert!(l.color() == NodeColor::Black);
        }
        if let Some(r) = node.right() {
            assert!(r.color() == NodeColor::Black);
        }
    }
    let lb = node.left().map_or(1, |l| check_rb(&l));
    let rb = node.right().map_or(1, |r| check_rb(&r));
    assert_eq!(lb, rb);
    lb + usize::from(node.color() == NodeColor::Black)
}

fn assert_rb_properties(tree: &RedBlackTree<i32, ()>) {
    if let Some(root) = tree.root_view() {
        assert!(root.color() == NodeColor::Black);
        check_rb(&root);
    }
}

#[test]
fn rb_safe_empty_tree() {
    let tree: RedBlackTree<i32, ()> = RedBlackTree::new();
    assert!(tree.min_cursor().is_none());
    assert!(tree.max_cursor().is_none());
    assert!(!tree.contains_key(&5));
    assert_eq!(tree.height(), 0);
    assert_eq!(tree.node_count(), 0);
    assert!(tree.is_empty());
}

#[test]
fn rb_safe_insert_and_contains() {
    let mut tree: RedBlackTree<i32, ()> = RedBlackTree::new();
    for value in [5, 3, 7] {
        tree.insert(value, ());
    }
    assert!(tree.contains_key(&5));
    assert!(tree.contains_key(&3));
    assert!(tree.contains_key(&7));
    assert!(!tree.contains_key(&4));
    assert_eq!(tree.len(), 3);
}

#[test]
fn rb_safe_min_max_and_neighbors() {
    let mut tree: RedBlackTree<i32, ()> = RedBlackTree::new();
    for value in [5, 3, 7, 2, 4, 6, 8] {
        tree.insert(value, ());
    }
    assert_eq!(*tree.min_cursor().expect("min").key(), 2);
    assert_eq!(*tree.max_cursor().expect("max").key(), 8);
    let c2 = tree.cursor(&2).expect("c2");
    let c5 = tree.cursor(&5).expect("c5");
    let c8 = tree.cursor(&8).expect("c8");
    assert_eq!(*c2.successor().expect("succ").key(), 3);
    assert_eq!(*c5.successor().expect("succ").key(), 6);
    assert!(c8.successor().is_none());
    assert_eq!(*c8.predecessor().expect("pred").key(), 7);
    assert_eq!(*c5.predecessor().expect("pred").key(), 4);
    assert!(c2.predecessor().is_none());
}

#[test]
fn rb_safe_delete_leaf_one_child_two_children_and_root() {
    let mut tree: RedBlackTree<i32, ()> = RedBlackTree::new();
    for value in [5, 3, 7, 2, 4, 6, 8] {
        tree.insert(value, ());
    }
    assert!(tree.remove(&2).is_some());
    assert!(tree.remove(&3).is_some());
    assert!(tree.remove(&7).is_some());
    assert!(tree.remove(&5).is_some());
    assert!(tree.remove(&42).is_none());
    let sorted = keys_in_order(&tree);
    assert_eq!(sorted, vec![4, 6, 8]);
    assert_eq!(tree.node_count(), sorted.len());
}

#[test]
fn rb_safe_into_iter_is_sorted() {
    let mut tree: RedBlackTree<i32, ()> = RedBlackTree::new();
    for value in [10, 2, 8, 1, 3] {
        tree.insert(value, ());
    }
    assert_eq!(keys_in_order(&tree), vec![1, 2, 3, 8, 10]);
}

#[test]
fn rb_safe_mixed_operations_match_btreemap_model() {
    let mut tree: RedBlackTree<i32, ()> = RedBlackTree::new();
    let mut model = BTreeSet::new();
    for key in [8, 3, 10, 1, 6, 14, 4] {
        assert_eq!(tree.insert(key, ()).is_some(), !model.insert(key));
    }
    for key in [6, 10, 13] {
        assert_eq!(tree.insert(key, ()).is_some(), !model.insert(key));
    }
    for key in [1, 4, 6, 13, 99] {
        assert_eq!(tree.contains_key(&key), model.contains(&key));
    }
    for key in [3, 14, 42] {
        assert_eq!(tree.remove(&key).is_some(), model.remove(&key));
    }
    let tree_items = keys_in_order(&tree);
    let model_items: Vec<_> = model.into_iter().collect();
    assert_eq!(tree_items, model_items);
    assert_eq!(tree.node_count(), tree_items.len());
}

#[test]
fn rb_safe_node_views_link_parent_and_children() {
    let mut tree: RedBlackTree<i32, ()> = RedBlackTree::new();
    for value in [5, 3, 7, 2, 4, 6, 8] {
        tree.insert(value, ());
    }
    let root = tree.root_view().expect("root");
    assert!(root.parent().is_none());
    let mut count = 0;
    let mut stack = vec![root];
    while let Some(node) = stack.pop() {
        count += 1;
        if let Some(l) = node.left() {
            assert!(*l.key() < *node.key());
            assert_eq!(*l.parent().expect("parent").key(), *node.key());
            stack.push(l);
        }
        if let Some(r) = node.right() {
            assert!(*r.key() > *node.key());
            assert_eq!(*r.parent().expect("parent").key(), *node.key());
            stack.push(r);
        }
    }
    assert_eq!(count, 7);
}

#[test]
fn rb_safe_rotations_and_balancing() {
    for order in [[10, 20, 30], [30, 20, 10], [30, 10, 20]] {
        let mut tree: RedBlackTree<i32, ()> = RedBlackTree::new();
        for value in order {
            tree.insert(value, ());
        }
        assert_eq!(*tree.root_view().expect("root").key(), 20);
        assert_rb_properties(&tree);
    }
}

#[test]
fn rb_safe_deletion_and_rank_queries() {
    let mut tree: RedBlackTree<i32, ()> = RedBlackTree::new();
    for value in [10, 5, 15, 2, 7, 12, 20, 6, 8] {
        tree.insert(value, ());
    }
    assert!(tree.remove(&5).is_some());
    assert!(tree.remove(&10).is_some());
    assert!(tree.remove(&99).is_none());
    assert_rb_properties(&tree);
    let sorted = keys_in_order(&tree);
    for (rank, value) in sorted.iter().enumerate() {
        let selected = tree.select(rank).expect("selected");
        assert_eq!(*selected.key(), *value);
    }
    assert!(tree.select(sorted.len()).is_none());
    assert_eq!(tree.size(), sorted.len());
}

#[test]
fn rb_safe_properties_hold_through_many_updates() {
    let mut tree: RedBlackTree<i32, ()> = RedBlackTree::new();
    for key in [41, 38, 31, 12, 19, 8, 19, 25, 32] {
        tree.insert(key, ());
        assert_rb_properties(&tree);
    }
    for key in [31, 8, 99] {
        tree.remove(&key);
        assert_rb_properties(&tree);
    }
    for key in 0..200 {
        tree.insert((key * 37) % 101, ());
        assert_rb_properties(&tree);
    }
    for key in 0..150 {
        tree.remove(&((key * 13) % 101));
        assert_rb_properties(&tree);
    }
}
