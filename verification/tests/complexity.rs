use ads::trees::avl_tree::safe::AvlTree;
use ads::trees::splay_tree::safe::SplayTree;
use rand::rngs::StdRng;
use rand::{Rng, SeedableRng};
use std::collections::BTreeMap;

fn avl_check(node: Option<ads::trees::avl_tree::safe::AvlNodeView<'_, i32, i32>>) -> usize {
    match node {
        None => 0,
        Some(n) => {
            let key = *n.key();
            let l = n.left();
            let r = n.right();
            if let Some(c) = &l {
                assert!(*c.key() < key);
                assert!(c.parent().is_some());
            }
            if let Some(c) = &r {
                assert!(key < *c.key());
                assert!(c.parent().is_some());
            }
            let hl = avl_check(l);
            let hr = avl_check(r);
            assert!(hl <= hr + 1 && hr <= hl + 1);
            1 + hl.max(hr)
        }
    }
}

fn splay_check(node: Option<ads::trees::splay_tree::safe::SplayNodeView<'_, i32, i32>>) {
    if let Some(n) = node {
        let key = *n.key();
        if let Some(c) = n.left() {
            assert!(*c.key() < key);
            assert!(c.parent().is_some());
            splay_check(Some(c));
        }
        if let Some(c) = n.right() {
            assert!(key < *c.key());
            assert!(c.parent().is_some());
            splay_check(Some(c));
        }
    }
}

#[test]
fn avl_sorted_insertions_remain_balanced() {
    let mut tree: AvlTree<i32, i32> = AvlTree::new();
    for value in 1..=100 {
        tree.insert(value, value);
    }
    assert!(tree.height() <= 8);
}

#[test]
fn avl_deletion_keeps_balance() {
    let mut tree: AvlTree<i32, i32> = AvlTree::new();
    for value in [10, 5, 15, 2, 7, 12, 20, 6, 8, 11, 13] {
        tree.insert(value, value);
    }
    assert!(tree.remove(&2).is_some());
    assert!(tree.remove(&12).is_some());
    assert!(tree.remove(&10).is_some());
    assert!(tree.remove(&999).is_none());
    let mut items = Vec::new();
    let mut it = tree.iter();
    while let Some((k, _)) = it.next() {
        items.push(k);
    }
    assert_eq!(items, vec![5, 6, 7, 8, 11, 13, 15, 20]);
}

#[test]
fn avl_height_scales_logarithmically() {
    fn run_case(size: i32) -> usize {
        let mut tree: AvlTree<i32, i32> = AvlTree::new();
        for value in 0..size {
            tree.insert(value, value);
        }
        tree.height()
    }
    let small = run_case(128);
    let large = run_case(1024);
    assert!(small <= 12);
    assert!(large <= 16);
    assert!(large <= small + 6);
}

#[test]
fn avl_stress_random_operations() {
    let mut tree: AvlTree<i32, i32> = AvlTree::new();
    let mut model = BTreeMap::new();
    let mut rng = StdRng::seed_from_u64(42);
    for _ in 0..1000 {
        match rng.gen_range(0..4) {
            0 => {
                let k = rng.gen_range(0..500);
                let v = rng.gen_range(0..1000);
                assert_eq!(tree.insert(k, v), model.insert(k, v));
            }
            1 if !model.is_empty() => {
                let keys: Vec<_> = model.keys().cloned().collect();
                let k = keys[rng.gen_range(0..keys.len())];
                assert_eq!(tree.remove(&k), model.remove(&k));
            }
            2 if !model.is_empty() => {
                let keys: Vec<_> = model.keys().cloned().collect();
                let k = keys[rng.gen_range(0..keys.len())];
                assert!(tree.contains_key(&k));
            }
            3 => {
                let k = rng.gen_range(500..1000);
                assert!(!tree.contains_key(&k));
            }
            _ => {}
        }
        if rng.gen_bool(0.05) {
            avl_check(tree.root_view());
        }
    }
    let mut actual = Vec::new();
    let mut it = tree.iter();
    while let Some(e) = it.next() {
        actual.push(e);
    }
    let expected: Vec<_> = model.into_iter().collect();
    assert_eq!(actual, expected);
}

#[test]
fn splay_stress_random_operations() {
    let mut tree: SplayTree<i32, i32> = SplayTree::new();
    let mut model = BTreeMap::new();
    let mut rng = StdRng::seed_from_u64(42);
    for _ in 0..1000 {
        match rng.gen_range(0..4) {
            0 => {
                let k = rng.gen_range(0..500);
                let v = rng.gen_range(0..1000);
                assert_eq!(tree.insert(k, v), model.insert(k, v));
            }
            1 if !model.is_empty() => {
                let keys: Vec<_> = model.keys().cloned().collect();
                let k = keys[rng.gen_range(0..keys.len())];
                assert_eq!(tree.remove(&k), model.remove(&k));
            }
            2 if !model.is_empty() => {
                let keys: Vec<_> = model.keys().cloned().collect();
                let k = keys[rng.gen_range(0..keys.len())];
                assert!(tree.contains_adaptive(&k));
            }
            3 => {
                let k = rng.gen_range(500..1000);
                assert!(!tree.contains_adaptive(&k));
            }
            _ => {}
        }
        if rng.gen_bool(0.05) {
            splay_check(tree.root_view());
        }
    }
    let mut actual = Vec::new();
    let mut it = tree.iter();
    while let Some(e) = it.next() {
        actual.push(e);
    }
    let expected: Vec<_> = model.into_iter().collect();
    assert_eq!(actual, expected);
}
