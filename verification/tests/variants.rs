use ads::trees::red_black_tree::engine::NodeColor;
use ads::trees::red_black_tree::{arena, raw, safe};

const OPS: &str = "I22 I29 I10 I30 I36 I13 I11 I4 I39 I8 I0 D10 I12 I40 D24 I23 I9 I21 I38 D21 D30 D11 I11 I1 D22 I26 I37 D29 I15 D2 I5 I32 D5 D34 I38 I16";

fn ops() -> Vec<(bool, i32)> {
    OPS.split(' ').map(|op| (op.starts_with('I'), op[1..].parse().unwrap())).collect()
}

fn tag(c: NodeColor) -> &'static str {
    if c == NodeColor::Red { "R" } else { "B" }
}

fn pre_safe(node: Option<safe::RbNodeView<'_, i32, ()>>, out: &mut Vec<String>) {
    match node {
        None => out.push(".".to_string()),
        Some(n) => {
            out.push(format!("{}{}", n.key(), tag(n.color())));
            pre_safe(n.left(), out);
            pre_safe(n.right(), out);
        }
    }
}

fn shape_safe() -> String {
    let mut t: safe::RedBlackTree<i32, ()> = safe::RedBlackTree::new();
    for (ins, k) in ops() {
        if ins {
            t.insert(k, ());
        } else {
            t.remove(&k);
        }
    }
    let mut out = Vec::new();
    pre_safe(t.root_view(), &mut out);
    out.join(" ")
}

fn pre_raw(node: Option<raw::RbNodeView<'_, i32, ()>>, out: &mut Vec<String>) {
    match node {
        None => out.push(".".to_string()),
        Some(n) => {
            out.push(format!("{}{}", n.key(), tag(n.color())));
            pre_raw(n.left(), out);
            pre_raw(n.right(), out);
        }
    }
}

fn shape_raw() -> String {
    let mut t: raw::RedBlackTree<i32, ()> = raw::RedBlackTree::new();
    for (ins, k) in ops() {
        if ins {
            t.insert(k, ());
        } else {
            t.remove(&k);
        }
    }
    let mut out = Vec::new();
    pre_raw(t.root_view(), &mut out);
    out.join(" ")
}

fn pre_arena(node: Option<arena::RbNodeView<'_, i32, ()>>, out: &mut Vec<String>) {
    match node {
        None => out.push(".".to_string()),
        Some(n) => {
            out.push(format!("{}{}", n.key(), tag(n.color())));
            pre_arena(n.left(), out);
            pre_arena(n.right(), out);
        }
    }
}

fn shape_arena() -> String {
    let mut t: arena::RedBlackTree<i32, ()> = arena::RedBlackTree::new();
    for (ins, k) in ops() {
        if ins {
            t.insert(k, ());
        } else {
            t.remove(&k);
        }
    }
    let mut out = Vec::new();
    pre_arena(t.root_view(), &mut out);
    out.join(" ")
}

#[test]
fn safe_raw_and_arena_variants_build_the_same_tree() {
    let s = shape_safe();
    assert_eq!(s, shape_raw());
    assert_eq!(s, shape_arena());
    assert_eq!(s, "23B 9B 4R 0B . 1R . . 8B . . 12R 11B . . 15B 13R . . 16R . . 36B 26B . 32R . . 39R 38B 37R . . . 40B . .");
}
