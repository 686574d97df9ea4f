use ads::trees::avl_tree::safe::AvlTree;
use ads::trees::b_tree::raw::BTree as RawBTree;
use ads::trees::b_tree::safe::BTree;
use ads::trees::red_black_tree::arena::RedBlackTree as ArenaRedBlackTree;
use ads::trees::red_black_tree::safe::RedBlackTree;
use ads::trees::splay_tree::safe::SplayTree;

const KEYS: [i32; 9] = [50, 20, 80, 10, 30, 70, 90, 25, 75];

#[test]
fn read_after_write_on_every_tree_kind() {
    let mut rb: RedBlackTree<i32, i32> = RedBlackTree::new();
    let mut avl: AvlTree<i32, i32> = AvlTree::new();
    let mut bt: BTree<i32, i32, 2> = BTree::new();
    let mut sp: SplayTree<i32, i32> = SplayTree::new();
    for k in KEYS {
        rb.insert(k, k * 10);
        avl.insert(k, k * 10);
        bt.insert(k, k * 10);
        sp.insert(k, k * 10);
    }
    assert_eq!(rb.insert(30, 7), Some(300));
    assert_eq!(avl.insert(30, 7), Some(300));
    assert_eq!(bt.insert(30, 7), Some(300));
    assert_eq!(sp.insert(30, 7), Some(300));
    assert_eq!(*rb.cursor(&30).unwrap().value(), 7);
    assert_eq!(*avl.cursor(&30).unwrap().value(), 7);
    assert_eq!(*bt.cursor(&30).unwrap().value(), 7);
    assert_eq!(*sp.cursor(&30).unwrap().value(), 7);
    for k in KEYS {
        if k != 30 {
            assert_eq!(*rb.cursor(&k).unwrap().value(), k * 10);
            assert_eq!(*bt.cursor(&k).unwrap().value(), k * 10);
        }
    }
}

#[test]
fn absent_after_remove_and_remove_undoes_insert() {
    let mut rb: RedBlackTree<i32, ()> = RedBlackTree::new();
    let mut bt: BTree<i32, (), 3> = BTree::new();
    for k in KEYS {
        rb.insert(k, ());
        bt.insert(k, ());
    }
    let before_rb: Vec<i32> = KEYS.iter().copied().filter(|k| rb.contains_key(k)).collect();
    assert_eq!(rb.insert(55, ()), None);
    assert_eq!(bt.insert(55, ()), None);
    assert_eq!(rb.len(), KEYS.len() + 1);
    assert_eq!(bt.len(), KEYS.len() + 1);
    assert_eq!(rb.remove(&55), Some(()));
    assert_eq!(bt.remove(&55), Some(()));
    assert!(!rb.contains_key(&55));
    assert!(!bt.contains_key(&55));
    assert_eq!(rb.len(), KEYS.len());
    assert_eq!(bt.len(), KEYS.len());
    assert_eq!(before_rb.len(), KEYS.len());
    for k in KEYS {
        assert!(rb.contains_key(&k));
        assert!(bt.contains_key(&k));
    }
    assert_eq!(rb.remove(&55), None);
    assert_eq!(rb.len(), KEYS.len());
}

#[test]
fn successor_and_predecessor_undo_each_other() {
    let mut rb: ArenaRedBlackTree<i32, ()> = ArenaRedBlackTree::new();
    let mut bt: RawBTree<i32, (), 2> = RawBTree::new();
    for k in KEYS {
        rb.insert(k, ());
        bt.insert(k, ());
    }
    for k in KEYS {
        let c = rb.cursor(&k).unwrap();
        if let Some(s) = c.successor() {
            assert_eq!(*s.predecessor().unwrap().key(), k);
        }
        if let Some(p) = c.predecessor() {
            assert_eq!(*p.successor().unwrap().key(), k);
        }
        let c = bt.cursor(&k).unwrap();
        if let Some(s) = c.successor() {
            assert_eq!(*s.predecessor().unwrap().key(), k);
        }
        if let Some(p) = c.predecessor() {
            assert_eq!(*p.successor().unwrap().key(), k);
        }
    }
}

#[test]
fn ends_have_no_neighbour_and_walks_increase() {
    let mut avl: AvlTree<i32, ()> = AvlTree::new();
    for k in KEYS {
        avl.insert(k, ());
    }
    let lo = avl.min_cursor().unwrap();
    let hi = avl.max_cursor().unwrap();
    assert_eq!(*lo.key(), 10);
    assert_eq!(*hi.key(), 90);
    assert!(lo.predecessor().is_none());
    assert!(hi.successor().is_none());
    let mut seen = vec![*lo.key()];
    let mut c = lo;
    while let Some(n) = c.successor() {
        assert!(*c.key() < *n.key());
        seen.push(*n.key());
        c = n;
    }
    let mut sorted = KEYS.to_vec();
    sorted.sort();
    assert_eq!(seen, sorted);
}
