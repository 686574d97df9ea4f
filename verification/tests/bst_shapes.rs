use ads::trees::binary_search_tree::safe::{BinarySearchTree, BstNodeView};

fn pre(node: Option<BstNodeView<'_, i32, ()>>, out: &mut Vec<String>) {
    match node {
        None => out.push(".".to_string()),
        Some(n) => {
            out.push(n.key().to_string());
            pre(n.left(), out);
            pre(n.right(), out);
        }
    }
}

fn run(ops: &str) -> String {
    let mut tree: BinarySearchTree<i32, ()> = BinarySearchTree::new();
    for op in ops.split(' ') {
        let k: i32 = op[1..].parse().unwrap();
        if op.starts_with('I') {
            tree.insert(k, ());
        } else {
            tree.remove(&k);
        }
    }
    let mut out = Vec::new();
    pre(tree.root_view(), &mut out);
    out.join(" ")
}

#[test]
fn bst_textbook_shape_0() {
    assert_eq!(run("I17 I29 I20 I19 I26 I17 I22 I26 I12 I4 I4 D16 I0 D2 I30 I9 D26 D15 I29 D22 D13 I25 I30 D28 I1 I6 I21 I20 D13 I12 I17 I18 I10 D29 I8 D21 D22 D30 I18 I22"), "17 12 4 0 . 1 . . 9 6 . 8 . . 10 . . . 20 19 18 . . . 25 22 . . .");
}

#[test]
fn bst_textbook_shape_1() {
    assert_eq!(run("D20 D18 I3 I27 I15 I25 I28 I9 I13 D1 I24 I22 I17 D8 I1 I2 I17 I6 D9 I4 D27 I11 D28 D12 I16 I27 I17 I30 D8 I23 D29 I8 I17 I25 I18 I12 I20 I20 I14 I29"), "3 1 . 2 . . 15 13 6 4 . . 11 8 . . 12 . . 14 . . 25 24 22 17 16 . . 18 . 20 . . 23 . . . 27 . 30 29 . . .");
}

#[test]
fn bst_textbook_shape_2() {
    assert_eq!(run("I22 I15 I1 D0 D8 I9 I10 I5 I11 D8 I12 I26 I18 D4 I7 D8 I5 D20 D3 I30 I26 I25 D5 I23 D28 I8 I3 I30 I25 D18 I8 I26 I25 I18 I9 I27 I11 I9 I13 I13"), "22 15 1 . 9 7 3 . . 8 . . 10 . 11 . 12 . 13 . . 18 . . 26 25 23 . . . 30 27 . . .");
}

#[test]
fn bst_textbook_shape_3() {
    assert_eq!(run("I0 I26 D16 I30 D22 I23 I24 D16 D17 I7 D27 I9 I7 I28 D16 D28 D13 I0 I3 I9 I0 I13 I29 I10 I27 I25 D11 I3 I26 I7 D29 D4 D0 I18 D1 D7 I16 I1 I24 D27"), "26 23 9 3 1 . . . 13 10 . . 18 16 . . . 24 . 25 . . 30 . .");
}

#[test]
fn bst_textbook_shape_4() {
    assert_eq!(run("I4 I1 I1 D2 I15 I10 I12 I18 I8 I10 I4 I22 D25 I5 I14 I25 I20 D19 D1 I15 D10 I22 I0 I17 I18 I13 I4 D29 I28 I27 I14 D30 D21 D16 D21 I10 I3 D22 I4 I12"), "4 0 . 3 . . 15 12 8 5 . . 10 . . 14 13 . . . 18 17 . . 25 20 . . 28 27 . . .");
}

#[test]
fn bst_textbook_shape_5() {
    assert_eq!(run("I2 I21 D5 D10 D3 I3 D26 D9 I25 I24 I16 D3 I3 D1 I27 I26 I5 I14 I24 D8 I12 D17 I2 I7 D13 D30 I22 I18 D16 D4 I28 D5 I23 I22 I14 I27 I8 D4 I10 D27"), "2 . 21 18 3 . 14 12 7 . 8 . 10 . . . . . 25 24 22 . 23 . . . 28 26 . . .");
}
