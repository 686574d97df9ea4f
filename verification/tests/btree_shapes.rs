use ads::trees::b_tree::safe::{BTree, BTreeNodeView};

fn pre(node: BTreeNodeView<'_, i32, ()>, out: &mut Vec<String>) {
    let keys: Vec<String> = node.keys().iter().map(|k| k.to_string()).collect();
    out.push(format!("[{}]", keys.join(",")));
    for c in node.children() {
        pre(c, out);
    }
}

fn shape<const T: usize>(tree: &BTree<i32, (), T>) -> String {
    match tree.root_view() {
        None => ".".to_string(),
        Some(r) => {
            let mut out = Vec::new();
            pre(r, &mut out);
            out.join(" ")
        }
    }
}

fn apply<const T: usize>(tree: &mut BTree<i32, (), T>, ops: &str) {
    for op in ops.split(' ') {
        let k: i32 = op[1..].parse().unwrap();
        if op.starts_with('I') {
            tree.insert(k, ());
        } else {
            tree.remove(&k);
        }
    }
}

#[test]
fn btree_textbook_shape_0() {
    let mut tree: BTree<i32, (), 2> = BTree::new();
    apply(&mut tree, "I22 D33 I29 D15 I10 I30 D24 I36 I13 I11 D24 I4 I39 I8 I0 I13 D10 D18 I12 I40 I12 D24 I23 I9 I21 I38 I38 D21 I22 D30 D11 I11 I1 D22 D1 I26 I37 D28 I11 I12 I15 D29 I22 D16 D6 I23 D2 I5 I32 I9 I34 I20 I5 I19 D10 D5 D34 D2 I38 I16");
    assert_eq!(shape(&tree), "[13,26] [4,9] [0] [8] [11,12] [19,22] [15,16] [20] [23] [37,39] [32,36] [38] [40]");
}

#[test]
fn btree_textbook_shape_1() {
    let mut tree: BTree<i32, (), 2> = BTree::new();
    apply(&mut tree, "I26 I40 I31 I13 I36 D40 D26 I27 I3 D18 I39 D33 I31 D20 I18 I9 I34 D40 D21 I31 I35 D23 I22 D2 D23 I17 D16 D18 D21 I37 D30 I16 I17 I32 I22 I22 D26 I11 D28 D21 I33 D12 D30 I5 D26 I37 I26 I35 D40 I1 I37 I11 I11 I2 D14 I8 I11 I35 I29 I39");
    assert_eq!(shape(&tree), "[13,31] [3,9] [1,2] [5,8] [11] [22] [16,17] [26,27,29] [34,36] [32,33] [35] [37,39]");
}

#[test]
fn btree_textbook_shape_2() {
    let mut tree: BTree<i32, (), 2> = BTree::new();
    apply(&mut tree, "I13 I23 I25 D26 D35 I2 I19 I34 I37 I22 D26 I36 I23 I10 I36 I12 D38 I0 I20 I39 I20 I36 I27 D31 I24 I10 I16 D19 I26 I19 I18 I1 I39 D15 I8 D0 I35 I30 D15 I9 D18 I38 D33 I38 D7 I8 I34 D39 I33 I22 I37 I0 I29 D6 D34 I27 D27 I40 I24 I12");
    assert_eq!(shape(&tree), "[23] [13] [2,10] [0,1] [8,9] [12] [20] [16,19] [22] [33] [25,29] [24] [26] [30] [37] [35,36] [38,40]");
}

#[test]
fn btree_textbook_shape_3() {
    let mut tree: BTree<i32, (), 2> = BTree::new();
    apply(&mut tree, "D29 D4 I0 D27 I30 D9 I35 D21 I27 I3 I14 I5 D1 I27 D25 D3 I7 I7 D8 D28 I39 I10 I13 I6 D4 I36 I25 D8 I5 I38 I22 D23 D8 D9 I32 I35 I14 I35 I18 I8 D23 I24 I1 D5 I2 I7 I29 I29 I20 I33 I24 I9 D27 D14 D5 D31 D8 D24 I15 I39");
    assert_eq!(shape(&tree), "[13,30] [1,7] [0] [2,6] [9,10] [20,25] [15,18] [22] [29] [36] [32,33,35] [38,39]");
}

#[test]
fn btree_textbook_shape_4() {
    let mut tree: BTree<i32, (), 2> = BTree::new();
    apply(&mut tree, "D24 I22 I40 I23 I37 D13 D25 I2 I12 I31 D30 D22 I30 I39 D20 I6 I10 I24 D30 I16 I10 D15 I2 I23 I3 D29 I9 I20 I15 D10 I1 I5 I23 D11 I18 I29 I15 I13 D38 I17 I3 I26 I2 I33 I6 D15 D31 I30 I15 I31 I3 I26 I40 I2 D12 I32 I12 I5 D6 I10");
    assert_eq!(shape(&tree), "[5,23] [2] [1] [3] [13,16] [9,10,12] [15] [17,18,20] [29,31,37] [24,26] [30] [32,33] [39,40]");
}

#[test]
fn btree_textbook_shape_5() {
    let mut tree: BTree<i32, (), 2> = BTree::new();
    apply(&mut tree, "I13 I28 I31 I24 I8 D19 D14 I8 I5 D16 D20 I34 I15 D27 D15 I31 D3 D18 D6 I20 I35 I18 D8 I28 I1 D27 I24 I20 I10 I31 D18 I34 D35 I7 I8 D27 D39 I33 I23 I22 I37 I10 D6 I38 I9 I27 D7 I28 D29 I10 I10 I31 I6 I26 D13 D2 D15 I22 I13 I12");
    assert_eq!(shape(&tree), "[20,28] [5,9] [1] [6,8] [10,12,13] [23] [22] [24,26,27] [33] [31] [34,37,38]");
}

#[test]
fn btree_textbook_shape_6() {
    let mut tree: BTree<i32, (), 3> = BTree::new();
    apply(&mut tree, "I33 I15 I15 D3 I25 I9 D31 I6 I6 D18 D12 D20 I30 D39 I12 I0 I38 I11 D1 I1 I32 I30 I25 I37 D35 D34 I26 I37 I33 I18 I5 D39 I26 I0 I15 I5 D19 D38 I13 I5 D15 I34 I0 D24 I33 D39 I20 I35 D23 I6 I19 D39 I10 I26 D14 D36 I40 D26 I27 I38");
    assert_eq!(shape(&tree), "[9,13,20,32,35] [0,1,5,6] [10,11,12] [18,19] [25,27,30] [33,34] [37,38,40]");
}

#[test]
fn btree_textbook_shape_7() {
    let mut tree: BTree<i32, (), 3> = BTree::new();
    apply(&mut tree, "D19 I5 I21 I1 I18 I38 I27 I38 I21 D3 D8 D4 I29 I14 D39 D30 D0 I10 I21 I39 D36 D20 D11 D35 D40 D6 I4 I20 I29 D5 I34 I0 I38 D8 D31 I21 D4 I18 I30 D12 D24 I31 I5 I18 I4 I3 I15 I4 I6 I27 D34 D15 I22 I5 I9 I1 I35 I24 D5 I13");
    assert_eq!(shape(&tree), "[4,18,29] [0,1,3] [6,9,10,13,14] [20,21,22,24,27] [30,31,35,38,39]");
}

#[test]
fn btree_textbook_shape_8() {
    let mut tree: BTree<i32, (), 3> = BTree::new();
    apply(&mut tree, "I28 I33 I17 I30 I3 I32 I37 D39 I2 I26 D26 D27 D24 I10 D9 I12 I4 D13 I12 I30 I0 D7 D29 I24 I26 D12 I31 D38 I29 I23 D1 I27 I8 D23 I13 I33 D35 I7 I25 I23 D35 I15 D8 I34 I24 I30 D3 I13 I32 D15 D3 D15 I24 D1 I28 I7 D23 I17 D38 D24");
    assert_eq!(shape(&tree), "[7,17,28,32] [0,2,4] [10,13] [25,26,27] [29,30,31] [33,34,37]");
}

#[test]
fn btree_textbook_shape_9() {
    let mut tree: BTree<i32, (), 3> = BTree::new();
    apply(&mut tree, "I10 I4 I3 D33 I6 D19 D23 D8 I4 I36 I36 I3 D7 I9 I21 I17 I9 D16 I1 I24 I15 D37 D28 D11 I36 I22 I0 I39 I2 I26 I33 I39 I34 D7 D37 I4 D19 I34 D4 D17 I19 I19 I20 I31 I9 D16 I39 I5 I5 I28 I25 I8 D10 D28 D22 D9 I36 I34 D13 I10");
    assert_eq!(shape(&tree), "[2,15,24,34] [0,1] [3,5,6,8,10] [19,20,21] [25,26,31,33] [36,39]");
}

#[test]
fn btree_textbook_shape_10() {
    let mut tree: BTree<i32, (), 3> = BTree::new();
    apply(&mut tree, "I16 D18 I12 I22 D33 I40 D5 D7 D7 I6 D18 D37 I34 I40 I16 I21 D19 I21 I26 I19 I2 D32 I29 I14 I36 I6 D20 D4 I6 I15 I34 I34 I7 I35 I27 I32 D8 I40 I12 I33 I19 I29 I35 D36 I16 I40 I30 I38 I38 I6 I14 I10 I28 I29 D10 D30 I37 D40 I3 I35");
    assert_eq!(shape(&tree), "[26] [12,16] [2,3,6,7] [14,15] [19,21,22] [32,35] [27,28,29] [33,34] [37,38]");
}

#[test]
fn btree_textbook_shape_11() {
    let mut tree: BTree<i32, (), 3> = BTree::new();
    apply(&mut tree, "I1 I37 I31 D33 D18 I3 D8 I18 I8 I12 D2 I10 I26 D26 D37 D21 D33 I39 D0 I31 D34 D29 D2 I0 I7 D10 D32 I25 D24 I14 I0 I15 I32 I37 I6 I38 I28 D3 D33 D9 I29 I12 I29 D30 I33 I39 I39 I39 I28 D12 D21 I34 I5 I25 I27 I12 D24 I7 D12 I25");
    assert_eq!(shape(&tree), "[25] [6,14] [0,1,5] [7,8] [15,18] [31,37] [27,28,29] [32,33,34] [38,39]");
}
