use ads::trees::avl_tree::safe::{AvlNodeView, AvlTree};
use ads::trees::splay_tree::safe::{SplayNodeView, SplayTree};

fn avl_pre(node: Option<AvlNodeView<'_, i32, ()>>, out: &mut Vec<String>) {
    match node {
        None => out.push(".".to_string()),
        Some(n) => {
            out.push(n.key().to_string());
            avl_pre(n.left(), out);
            avl_pre(n.right(), out);
        }
    }
}

fn splay_pre(node: Option<SplayNodeView<'_, i32, ()>>, out: &mut Vec<String>) {
    match node {
        None => out.push(".".to_string()),
        Some(n) => {
            out.push(n.key().to_string());
            splay_pre(n.left(), out);
            splay_pre(n.right(), out);
        }
    }
}

fn run_avl(ops: &str) -> String {
    let mut tree: AvlTree<i32, ()> = AvlTree::new();
    for op in ops.split(' ') {
        let k: i32 = op[1..].parse().unwrap();
        if op.starts_with('I') {
            tree.insert(k, ());
        } else {
            tree.remove(&k);
        }
    }
    let mut out = Vec::new();
    avl_pre(tree.root_view(), &mut out);
    out.join(" ")
}

fn run_splay(ops: &str) -> String {
    let mut tree: SplayTree<i32, ()> = SplayTree::new();
    for op in ops.split(' ') {
        let k: i32 = op[1..].parse().unwrap();
        if op.starts_with('I') {
            tree.insert(k, ());
        } else if op.starts_with('D') {
            tree.remove(&k);
        } else {
            tree.get_adaptive(&k);
        }
    }
    let mut out = Vec::new();
    splay_pre(tree.root_view(), &mut out);
    out.join(" ")
}

#[test]
fn avl_textbook_shape_0() {
    assert_eq!(run_avl("I17 D24 I16 D6 I16 I19 D3 I4 I25 D20 I12 D20 D20 I0 D2 I6 D19 I14 I18 D16 I9 I21 I20 I17 D26 I8 I7 I0 I24 I3 D12 I0 D0 I29 D15 I22 I2 I6 D8 I9"), "14 6 3 2 . . 4 . . 9 7 . . . 21 18 17 . . 20 . . 25 24 22 . . . 29 . .");
}

#[test]
fn avl_textbook_shape_1() {
    assert_eq!(run_avl("I30 I29 I7 D0 I25 I21 I14 I23 D13 D3 I6 I27 D25 I28 I5 I27 D18 I4 I8 I19 I9 I2 I18 D0 D11 D4 D15 D4 D5 D9 D26 D23 I23 D17 I30 I15 D13 I3 I30 I23"), "21 7 3 2 . . 6 . . 14 8 . . 18 15 . . 19 . . 29 27 23 . . 28 . . 30 . .");
}

#[test]
fn avl_textbook_shape_2() {
    assert_eq!(run_avl("D8 I28 I9 I29 D2 I15 I27 D2 I29 D23 I8 I7 I5 I16 I4 I4 D10 D22 I30 I1 D15 D22 I1 I20 I2 D10 I2 I17 I1 D23 D4 D29 I2 D28 I27 I25 I15 I19 D12 I19"), "16 5 2 1 . . . 8 7 . . 9 . 15 . . 20 17 . 19 . . 27 25 . . 30 . .");
}

#[test]
fn avl_textbook_shape_3() {
    assert_eq!(run_avl("I2 D8 D23 I29 D18 I14 D2 I16 I19 I0 I22 I24 D29 I28 I9 I19 I5 D10 D14 I7 I21 I20 I25 D6 D12 I29 I4 I11 D27 I2 D8 D3 I8 D26 I20 I21 I26 D19 I2 D8"), "16 5 2 0 . . 4 . . 9 7 . . 11 . . 22 20 . 21 . . 25 24 . . 28 26 . . 29 . .");
}

#[test]
fn avl_textbook_shape_4() {
    assert_eq!(run_avl("D1 D8 I9 D18 I4 I6 I26 I24 I1 D3 I20 I20 D30 I6 I15 I22 I15 I1 I8 D17 D16 I24 I27 D28 I13 D23 I14 I20 D0 I18 D16 D30 I10 D6 I27 D20 D3 I28 I2 D17"), "14 9 4 1 . 2 . . 8 . . 13 10 . . . 22 15 . 18 . . 26 24 . . 27 . 28 . .");
}

#[test]
fn avl_textbook_shape_5() {
    assert_eq!(run_avl("D29 I29 D0 I2 I10 I24 I29 I25 D13 D5 I21 D4 I16 D16 D22 I28 I30 D24 I16 I26 D20 I16 D17 I21 I27 D19 I27 I17 I18 I13 I16 I12 I1 I12 I18 I2 D2 D14 I30 D12"), "25 17 10 1 . . 13 . 16 . . 21 18 . . . 29 27 26 . . 28 . . 30 . .");
}

#[test]
fn avl_textbook_shape_6() {
    assert_eq!(run_avl("I15 I10 I26 D29 I10 I13 D29 I22 D0 I4 I21 I23 I19 I15 D3 D19 I6 D28 I12 D26 I5 I27 D20 I6 D19 I4 I23 D11 D10 D28 D6 D6 D4 D4 D8 I13 D13 I22 I12 D25"), "15 12 5 . . . 22 21 . . 23 . 27 . .");
}

#[test]
fn avl_textbook_shape_7() {
    assert_eq!(run_avl("I6 I11 D30 I22 I24 I21 D25 I3 I24 I16 D15 I5 I5 D9 D3 I4 D14 I3 I14 I11 I19 I20 D27 I13 I23 I29 I5 I25 I28 I26 D27 D30 I19 I18 D25 D8 D23 D5 D12 I10"), "21 11 4 3 . . 6 . 10 . . 16 14 13 . . . 19 18 . . 20 . . 26 24 22 . . . 28 . 29 . .");
}

#[test]
fn avl_textbook_shape_8() {
    assert_eq!(run_avl("D22 I13 D12 I5 I10 I3 I11 D28 D7 I30 D10 I12 I17 I16 D20 I3 D18 I19 I7 I12 I24 I12 I8 I28 I17 I30 I27 D20 I20 I19 D30 I29 D12 I5 D17 D1 I15 I16 I9 I9"), "11 5 3 . . 8 7 . . 9 . . 19 15 13 . . 16 . . 24 20 . . 28 27 . . 29 . .");
}

#[test]
fn avl_textbook_shape_9() {
    assert_eq!(run_avl("I8 I9 D23 I0 D18 I5 I21 I28 I12 I23 D2 D7 I15 I24 I16 I25 D14 I30 D19 D1 D14 I27 I16 I11 I21 I19 I18 D11 D16 D4 D23 I15 I28 I16 D11 I19 D18 D6 D24 I30"), "12 8 0 . 5 . . 9 . . 21 16 15 . . 19 . . 28 25 . 27 . . 30 . .");
}

#[test]
fn splay_textbook_shape_0() {
    assert_eq!(run_splay("I16 I28 I20 I0 I8 D0 G1 I7 G8 I24 I29 I17 I20 I15 D11 I10 I15 I26 I25 I14 G26 I14 D23 I12 I11 I20 G10 I17 I13 I18 I14 I2 G2 D18 G15 D9 I2 I6 G2 I15"), "15 6 2 . . 14 13 7 . 10 8 . . 11 . 12 . . . . 17 16 . . 20 . 25 24 . . 26 . 28 . 29 . .");
}

#[test]
fn splay_textbook_shape_1() {
    assert_eq!(run_splay("I9 I7 I21 I11 I10 D18 G29 I14 G25 I14 I7 D30 G7 I11 I0 I21 D18 D25 I23 G11 D17 I26 G18 I5 I24 D28 I25 I7 G1 G5 G9 I20 D2 G17 I25 G2 I2 I23 I28 I2"), "2 0 . . 24 14 5 . 9 7 . . 11 10 . . . 23 21 20 . . . . 28 26 25 . . . .");
}

#[test]
fn splay_textbook_shape_2() {
    assert_eq!(run_splay("I20 I3 D7 I15 G10 D12 I10 I21 I15 D17 I22 G29 I13 I27 I25 D26 I28 D30 G20 I16 I22 I25 I13 D29 I7 I20 D21 I10 I12 D16 I8 I15 I23 I9 I24 I29 I24 D0 G15 I10"), "10 9 8 7 3 . . . . . 15 12 . 13 . . 24 20 . 23 22 . . . 29 28 25 . 27 . . . .");
}

#[test]
fn splay_textbook_shape_3() {
    assert_eq!(run_splay("I6 I11 I18 I19 D19 G7 D5 I12 I29 I20 G30 G15 I15 D29 I21 G24 I15 I12 I6 I25 D16 G24 I25 I21 I28 I27 D28 I14 I22 D19 I13 I24 I4 I29 G4 G8 G17 I4 G24 I0"), "0 . 4 . 24 18 11 6 . . 13 12 . . 14 . 15 . . 22 21 20 . . . . 29 27 25 . . . .");
}

#[test]
fn splay_textbook_shape_4() {
    assert_eq!(run_splay("I26 I26 I2 I8 G22 G3 D22 D2 G17 G9 I25 I13 I29 I25 D6 I17 D16 D5 I10 I12 I17 I14 I11 I21 I3 D21 D23 I20 D0 D22 D7 I18 I14 I27 I28 G4 I20 D29 G23 I30"), "30 28 25 20 8 3 . . 14 11 10 . . 13 12 . . . 18 17 . . . . 27 26 . . . . .");
}

#[test]
fn splay_textbook_shape_5() {
    assert_eq!(run_splay("I24 D17 I8 I6 D23 I10 I30 I18 D23 I14 D2 I4 G3 I21 I5 I12 I26 D18 I3 I1 I3 D13 I10 D29 G4 I24 I26 D15 I29 D19 I23 D19 I25 I21 G16 I8 I6 I9 D3 G12"), "12 9 1 . 4 . 6 5 . . 8 . . 10 . . 14 . 21 . 25 23 . 24 . . 26 . 29 . 30 . .");
}

#[test]
fn splay_textbook_shape_6() {
    assert_eq!(run_splay("I16 I25 I26 I19 I8 G28 I17 I11 G16 G4 G22 I29 G22 I18 I20 I24 I4 I15 G13 I10 I29 I8 D28 I14 I7 G17 G17 I17 I5 I19 I3 I9 I7 G11 I5 G17 I14 I12 I25 I9"), "9 7 5 3 . 4 . . . 8 . . 25 11 10 . . 12 . 17 14 . 15 . 16 . . 19 18 . . 24 20 . . . 29 26 . . .");
}

#[test]
fn splay_textbook_shape_7() {
    assert_eq!(run_splay("D19 G20 I5 I13 D1 I16 D3 G12 I10 G4 I7 G29 I1 I23 I12 D19 I15 I13 G29 G24 D24 I15 D26 D26 D3 G3 G10 G16 D13 I10 I9 G28 D23 D19 I24 I28 G28 I7 I27 D7"), "5 1 . . 27 24 16 9 . 10 . 12 . 15 . . . . 28 . .");
}

#[test]
fn splay_textbook_shape_8() {
    assert_eq!(run_splay("G27 D1 D22 I16 I17 I21 D30 I28 I29 I27 G13 G25 I7 D18 I28 I3 G25 I3 G18 D0 I7 I0 I5 I14 D26 G12 I11 G7 I9 I14 I9 I15 I29 D28 I6 I27 I6 I26 I28 D0"), "26 5 3 . . 6 . 15 9 7 . . 11 . 14 . . 21 17 16 . . . . 28 27 . . 29 . .");
}

#[test]
fn splay_textbook_shape_9() {
    assert_eq!(run_splay("I20 G6 G20 I6 I20 I9 I30 I27 D22 I10 D13 I5 I27 I3 I8 I23 I16 I25 I11 G28 I18 G7 I28 I21 I8 I20 I14 I14 G2 G29 I0 G18 I17 I13 G2 I9 I7 I8 G0 I25"), "25 8 0 . 3 . 7 6 5 . . . . 13 9 . 10 . 11 . . 18 17 16 14 . . . . 20 . 21 . 23 . . 30 28 27 . . . .");
}
