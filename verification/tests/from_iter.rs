use ads::trees::avl_tree::arena::AvlTree;
use ads::trees::b_tree::raw::BTree;
use ads::trees::binary_search_tree::safe::BinarySearchTree;
use ads::trees::red_black_tree::safe::RedBlackTree;
use ads::trees::splay_tree::raw::SplayTree;

fn entries() -> Vec<(i32, &'static str)> {
    vec![(5, "a"), (2, "b"), (8, "c"), (5, "d")]
}

#[test]
fn trees_built_from_entries_keep_the_last_value_per_key() {
    let t = RedBlackTree::from_iter(entries());
    assert_eq!(t.len(), 3);
    assert_eq!(*t.cursor(&5).unwrap().value(), "d");
    let t = AvlTree::from_iter(entries());
    assert_eq!(*t.cursor(&2).unwrap().value(), "b");
    assert_eq!(t.len(), 3);
    let t = BinarySearchTree::from_iter(entries());
    assert_eq!(*t.root_view().unwrap().key(), 5);
    let t: BTree<i32, &str, 2> = BTree::from_iter(entries());
    assert_eq!(*t.min_cursor().unwrap().key(), 2);
    let t = SplayTree::from_iter(entries());
    assert_eq!(*t.root_view().unwrap().key(), 5);
    assert_eq!(*t.root_view().unwrap().value(), "d");
    assert!(RedBlackTree::<i32, ()>::from_iter(Vec::new()).is_empty());
}
