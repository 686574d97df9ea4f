use ads::trees::avl_tree::arena::AvlTree as ArenaAvl;
use ads::trees::avl_tree::safe::AvlTree as SafeAvl;
use ads::trees::red_black_tree::arena::RedBlackTree as ArenaRb;
use ads::trees::red_black_tree::safe::RedBlackTree as SafeRb;
use rand::rngs::StdRng;
use rand::{Rng, SeedableRng};
use std::collections::BTreeMap;

#[test]
fn avl_arena_matches_map_and_safe_shape() {
    let mut arena: ArenaAvl<i32, i32> = ArenaAvl::new();
    let mut safe: SafeAvl<i32, i32> = SafeAvl::new();
    let mut model = BTreeMap::new();
    let mut rng = StdRng::seed_from_u64(42);
    for _ in 0..2000 {
        let k = rng.gen_range(0..300);
        if rng.gen_bool(0.6) {
            let v = rng.gen_range(0..1000);
            let want = model.insert(k, v);
            assert_eq!(arena.insert(k, v), want);
            assert_eq!(safe.insert(k, v), want);
        } else {
            let want = model.remove(&k);
            assert_eq!(arena.remove(&k), want);
            assert_eq!(safe.remove(&k), want);
        }
        assert_eq!(arena.height(), safe.height());
        assert_eq!(arena.root_view().map(|n| *n.key()), safe.root_view().map(|n| *n.key()));
    }
    let mut got = Vec::new();
    let mut it = arena.iter();
    while let Some(e) = it.next() {
        got.push(e);
    }
    assert_eq!(got, model.into_iter().collect::<Vec<_>>());
}

#[test]
fn rb_arena_matches_map_and_safe_shape() {
    let mut arena: ArenaRb<i32, i32> = ArenaRb::new();
    let mut safe: SafeRb<i32, i32> = SafeRb::new();
    let mut model = BTreeMap::new();
    let mut rng = StdRng::seed_from_u64(42);
    for _ in 0..2000 {
        let k = rng.gen_range(0..300);
        if rng.gen_bool(0.6) {
            let v = rng.gen_range(0..1000);
            let want = model.insert(k, v);
            assert_eq!(arena.insert(k, v), want);
            assert_eq!(safe.insert(k, v), want);
        } else {
            let want = model.remove(&k);
            assert_eq!(arena.remove(&k), want);
            assert_eq!(safe.remove(&k), want);
        }
        assert_eq!(arena.root_view().map(|n| *n.key()), safe.root_view().map(|n| *n.key()));
    }
    let mut got = Vec::new();
    let mut it = arena.iter();
    while let Some(e) = it.next() {
        got.push(e);
    }
    assert_eq!(got, model.into_iter().collect::<Vec<_>>());
}
