use ads::trees::avl_tree::raw::AvlTree;
use ads::trees::red_black_tree::engine::NodeColor;
use std::collections::BTreeSet;

fn keys_in_order(tree: &AvlTree<i32, i32>) -> Vec<i32> {
    let mut out = Vec::new();
    let mut it = tree.iter();
    while let Some((k, _)) = it.next() {
        out.push(k);
    }
    out
}

#[test]
fn avl_raw_empty_tree() {
    let tree: AvlTree<i32, i32> = AvlTree::new();
    assert!(tree.min_cursor().is_none());
    assert!(tree.max_cursor().is_none());
    assert!(!tree.contains_key(&5));
    assert_eq!(tree.height(), 0);
    assert_eq!(tree.node_count(), 0);
    assert!(tree.is_empty());
}

#[test]
fn avl_raw_insert_and_contains() {
    let mut tree: AvlTree<i32, i32> = AvlTree::new();
    for value in [5, 3, 7] {
        tree.insert(value, value * 10);
    }
    assert!(tree.contains_key(&5));
    assert!(tree.contains_key(&3));
    assert!(tree.contains_key(&7));
    assert!(!tree.contains_key(&4));
    assert_eq!(tree.len(), 3);
}

#[test]
fn avl_raw_min_max_and_neighbors() {
    let mut tree: AvlTree<i32, i32> = AvlTree::new();
    for value in [5, 3, 7, 2, 4, 6, 8] {
        tree.insert(value, value * 10);
    }
    assert_eq!(*tree.min_cursor().expect("min").key(), 2);
    assert_eq!(*tree.max_cursor().expect("max").key(), 8);
    let c2 = tree.cursor(&2).expect("c2");
    let c5 = tree.cursor(&5).expect("c5");
    let c8 = tree.cursor(&8).expect("c8");
    assert_eq!(*c2.successor().expect("succ").key(), 3);
    assert_eq!(*c5.successor().expect("succ").key(), 6);
    assert!(c8.successor().is_none());
    assert_eq!(*c8.predecessor().expect("pred").key(), 7);
    assert_eq!(*c5.predecessor().expect("pred").key(), 4);
    assert!(c2.predecessor().is_none());
}

#[test]
fn avl_raw_delete_leaf_one_child_two_children_and_root() {
    let mut tree: AvlTree<i32, i32> = AvlTree::new();
    for value in [5, 3, 7, 2, 4, 6, 8] {
        tree.insert(value, value * 10);
    }
    assert!(tree.remove(&2).is_some());
    assert!(tree.remove(&3).is_some());
    assert!(tree.remove(&7).is_some());
    assert!(tree.remove(&5).is_some());
    assert!(tree.remove(&42).is_none());
    let sorted = keys_in_order(&tree);
    assert_eq!(sorted, vec![4, 6, 8]);
    assert_eq!(tree.node_count(), sorted.len());
}

#[test]
fn avl_raw_into_iter_is_sorted() {
    let mut tree: AvlTree<i32, i32> = AvlTree::new();
    for value in [10, 2, 8, 1, 3] {
        tree.insert(value, value * 10);
    }
    assert_eq!(keys_in_order(&tree), vec![1, 2, 3, 8, 10]);
}

#[test]
fn avl_raw_mixed_operations_match_btreemap_model() {
    let mut tree: AvlTree<i32, i32> = AvlTree::new();
    let mut model = BTreeSet::new();
    for key in [8, 3, 10, 1, 6, 14, 4] {
        assert_eq!(tree.insert(key, key * 10).is_some(), !model.insert(key));
    }
    for key in [6, 10, 13] {
        assert_eq!(tree.insert(key, key * 10).is_some(), !model.insert(key));
    }
    for key in [1, 4, 6, 13, 99] {
        assert_eq!(tree.contains_key(&key), model.contains(&key));
    }
    for key in [3, 14, 42] {
        assert_eq!(tree.remove(&key).is_some(), model.remove(&key));
    }
    let tree_items = keys_in_order(&tree);
    let model_items: Vec<_> = model.into_iter().collect();
    assert_eq!(tree_items, model_items);
    assert_eq!(tree.node_count(), tree_items.len());
}

#[test]
fn avl_raw_node_views_link_parent_and_children() {
    let mut tree: AvlTree<i32, i32> = AvlTree::new();
    for value in [5, 3, 7, 2, 4, 6, 8] {
        tree.insert(value, value * 10);
    }
    let root = tree.root_view().expect("root");
    assert!(root.parent().is_none());
    let mut count = 0;
    let mut stack = vec![root];
    while let Some(node) = stack.pop() {
        count += 1;
        if let Some(l) = node.left() {
            assert!(*l.key() < *node.key());
            assert_eq!(*l.parent().expect("parent").key(), *node.key());
            stack.push(l);
        }
        if let Some(r) = node.right() {
            assert!(*r.key() > *node.key());
            assert_eq!(*r.parent().expect("parent").key(), *node.key());
            stack.push(r);
        }
    }
    assert_eq!(count, 7);
}
