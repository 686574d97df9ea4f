use ads::trees::red_black_tree::engine::NodeColor;
use ads::trees::red_black_tree::safe::{RbNodeView, RedBlackTree};

fn preorder(node: Option<RbNodeView<'_, i32, ()>>, out: &mut Vec<String>) {
    match node {
        None => out.push(".".to_string()),
        Some(n) => {
            let c = if n.color() == NodeColor::Red { "R" } else { "B" };
            out.push(format!("{}{}", n.key(), c));
            preorder(n.left(), out);
            preorder(n.right(), out);
        }
    }
}

fn run(ops: &str) -> String {
    let mut tree: RedBlackTree<i32, ()> = RedBlackTree::new();
    for op in ops.split(' ') {
        let k: i32 = op[1..].parse().unwrap();
        if op.starts_with('I') {
            tree.insert(k, ());
        } else {
            tree.remove(&k);
        }
    }
    let mut out = Vec::new();
    preorder(tree.root_view(), &mut out);
    out.join(" ")
}

#[test]
fn rb_insert_recolors_when_the_uncle_is_red() {
    assert_eq!(run("I10 I5 I15 I1"), "10B 5B 1R . . . 15B . .");
}

#[test]
fn rb_insert_rotates_with_a_black_root_over_red_children() {
    assert_eq!(run("I1 I2 I3"), "2B 1R . . 3R . .");
    assert_eq!(run("I3 I1 I2"), "2B 1R . . 3R . .");
}

#[test]
fn rb_textbook_shape_0() {
    assert_eq!(
        run("D10 D12 D2 I3 D1 I6 I13 I7 I13 I18 D7 D18 I18 D1 I1 I4 I4 I18 D26 I3 I20 I3 I2 I19 I21 I24 D18 I11 I25 I24 I18 D15 I23 D19 I3 D5 D4 I13 I21 I17"),
        "6B 2B 1B . . 3B . . 20B 13R 11B . . 18B 17R . . . 24R 21B . 23R . . 25B . ."
    );
}

#[test]
fn rb_textbook_shape_1() {
    assert_eq!(
        run("D28 D10 I19 I25 I26 I8 I21 D23 I20 D21 D9 D28 D0 I11 I3 D6 D4 I12 I27 I5 I17 D4 I27 I22 D11 D12 I4 I4 I7 I26 I8 I4 D11 D10 D22 D30 D21 D14 D24 D21"),
        "19B 8B 4R 3B . . 5B . 7R . . 17B . . 25B 20B . . 26B . 27R . ."
    );
}

#[test]
fn rb_textbook_shape_2() {
    assert_eq!(
        run("I12 I12 I20 I6 I6 I3 I1 I18 D3 I19 I27 I12 D8 I19 I3 D15 I14 I9 D3 I23 D26 I16 D30 I11 D17 I24 D20 D22 I16 I5 I7 I24 I20 D25 D24 I25 D12 I7 I15 D0"),
        "14B 6B 1B . 5R . . 9B 7R . . 11R . . 19B 16B 15R . . 18R . . 23R 20B . . 27B 25R . . ."
    );
}

#[test]
fn rb_textbook_shape_3() {
    assert_eq!(
        run("I25 I8 D19 D14 D23 D30 I2 I7 I10 D19 D19 D15 D11 D2 D3 D25 I6 I5 I20 D25 I23 D12 D2 D5 I0 I28 I20 I26 D15 I11 I17 D0 D23 D16 I4 I27 I27 I8 I16 I18"),
        "11B 8R 6B 4R . . 7R . . 10B . . 20R 17B 16R . . 18R . . 27B 26R . . 28R . ."
    );
}

#[test]
fn rb_textbook_shape_4() {
    assert_eq!(
        run("I17 I4 I23 D14 D26 D13 I28 I17 I16 D14 I19 I25 I4 I23 I1 I16 D15 D3 I1 I8 I3 I17 D28 I14 D16 D6 I14 I25 I30 D16 D30 I29 I30 I14 I3 I10 I7 D6 I25 I24"),
        "17B 4B 1B . 3R . . 10R 8B 7R . . . 14B . . 23B 19B . . 29R 25B 24R . . . 30B . ."
    );
}

#[test]
fn rb_textbook_shape_5() {
    assert_eq!(
        run("D22 I11 I28 I14 I30 I28 D21 D5 I16 I13 I10 I11 I17 I22 I10 I9 I2 D29 I28 I8 D28 D8 I26 D29 I30 I4 I16 I22 I8 I22 I28 I30 D2 D2 I7 I27 I0 I17 I29 I4"),
        "14B 9B 7R 4B 0R . . . 8B . . 11R 10B . . 13B . . 26B 17R 16B . . 22B . . 28R 27B . . 30B 29R . . ."
    );
}

#[test]
fn rb_textbook_shape_6() {
    assert_eq!(
        run("I22 D3 I8 D6 I20 I24 I14 I5 I25 I8 D0 D17 I16 I29 D21 D13 D17 D12 D9 I7 D26 D23 D12 D1 I0 D23 I13 D2 D12 D21 I19 I9 I5 I14 D11 I17 D1 I9 I5 I12"),
        "20B 8B 5B 0R . . 7R . . 14R 12B 9R . . 13R . . 17B 16R . . 19R . . 24B 22B . . 25B . 29R . ."
    );
}

#[test]
fn rb_textbook_shape_7() {
    assert_eq!(
        run("I8 I6 I24 D8 I4 I1 I9 I7 I30 I24 D28 I28 I24 I15 D23 I4 D26 D16 D23 I16 D16 D18 I25 I21 D28 D30 I7 I1 D11 D12 I17 D0 I21 I8 I25 I29 I17 I16 I23 I25"),
        "9B 6B 4B 1R . . . 7B . 8R . . 24B 17R 15B . 16R . . 21B . 23R . . 25B . 29R . ."
    );
}

#[test]
fn rb_textbook_shape_8() {
    assert_eq!(
        run("I8 I24 D23 I14 I12 D29 I24 D20 I2 I10 D23 I19 I0 I15 I21 D6 D9 I9 D14 I28 D9 I29 I9 I26 D14 I12 D30 I2 D4 D8 D4 I20 I28 I11 D28 I12 D0 I21 D9 I13"),
        "15B 10B 2B . . 12B 11R . . 13R . . 21B 19B . 20R . . 26R 24B . . 29B . ."
    );
}

#[test]
fn rb_textbook_shape_9() {
    assert_eq!(
        run("I10 I10 I24 I12 I29 D0 I9 I2 I27 D11 I24 I1 D1 D9 I4 I8 I10 D11 D13 D25 D12 I30 D6 D1 I13 I24 I27 D1 I17 I15 I9 D23 I20 I20 I15 I12 I20 I6 I25 I7"),
        "10B 4B 2B . . 8R 6B . 7R . . 9B . . 24B 15R 13B 12R . . . 17B . 20R . . 29R 27B 25R . . . 30B . ."
    );
}

#[test]
fn rb_textbook_shape_10() {
    assert_eq!(
        run("D10 I14 I17 I2 I17 I7 I25 I28 I27 D13 I6 D10 I15 I30 I21 D20 I27 D8 I12 I14 D9 D27 I4 D22 I25 I18 I2 D29 D16 I14 I3 I4 I21 D26 D20 I28 D17 D0 I7 D1"),
        "14B 6B 3B 2R . . 4R . . 7B . 12R . . 25B 18R 15B . . 21B . . 28B . 30R . ."
    );
}

#[test]
fn rb_textbook_shape_11() {
    assert_eq!(
        run("D9 I20 I20 I24 I2 I30 I12 D25 I0 I14 D10 I28 I16 I7 D13 I9 I6 D21 I2 I21 I11 D1 I22 I21 D0 D23 I2 I6 I26 I14 D24 D3 D15 I28 D13 D1 D4 I1 I19 D1"),
        "14B 9B 6R 2B . . 7B . . 12B 11R . . . 22B 20R 16B . 19R . . 21B . . 28R 26B . . 30B . ."
    );
}
