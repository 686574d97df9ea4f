use ads::trees::arena_store::{ANode, Arena};

fn leaf(k: i32) -> ANode<i32, i32, ()> {
    ANode { key: k, value: k * 10, aux: (), left: None, right: None }
}

#[test]
fn freed_slots_are_reused_last_first() {
    let mut a: Arena<i32, i32, ()> = Arena::new();
    let i0 = a.alloc_node(leaf(1));
    let i1 = a.alloc_node(leaf(2));
    let i2 = a.alloc_node(leaf(3));
    assert_eq!((i0, i1, i2), (0, 1, 2));
    let n = a.take_node(i0);
    assert_eq!(n.key, 1);
    a.take_node(i2);
    assert!(a.nodes[0].is_none() && a.nodes[2].is_none());
    assert_eq!(a.free, vec![0, 2]);
    assert_eq!(a.alloc_node(leaf(4)), 2);
    assert_eq!(a.alloc_node(leaf(5)), 0);
    assert_eq!(a.alloc_node(leaf(6)), 3);
    assert_eq!(a.nodes.len(), 4);
    assert_eq!(a.node(0).key, 5);
}
