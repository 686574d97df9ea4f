//! The red-black tree: nodes are red or black, no red node has a red child, every path from a
//! node down to an empty link passes the same number of black nodes, and the root is black.
//! Every node also stores the number of nodes of its subtree, for rank queries.
use vstd::prelude::*;

use crate::key::{KeyOrder, TreeKey};
use crate::trees::avl_tree::engine::{all_above, all_below};
use crate::trees::bin_tree::{BinTree, Shape};
use crate::trees::node::{
    is_min_key, is_subtree, lemma_children_are_subtrees, lemma_map_facts, lemma_map_finite_size, map_of,
    ordered, seq_of, size_of, Node,
};
use crate::trees::node_ref::NodeRef;
use crate::trees::arena_store::{holds, Arena};
use crate::trees::arena_tree::{lemma_holds_child, ARef, ArenaTree};

verus! {

broadcast use vstd::map_lib::group_map_union;

/// Colour of a red-black tree node.
#[derive(Clone, Copy, Debug, PartialEq, Eq, Structural)]
pub enum NodeColor {
    Red,
    Black,
}

/// Balancing data of a red-black node: its colour and the size of its subtree.
pub struct RbAux {
    pub color: NodeColor,
    pub size: usize,
}

/// A red-black link.
pub type RbLink<K, V> = Option<Box<Node<K, V, RbAux>>>;

/// The subtree has a red root.
pub open spec fn is_red<K, V>(t: RbLink<K, V>) -> bool {
    match t {
        None => false,
        Some(n) => n.aux.color == NodeColor::Red,
    }
}

/// The subtree has a black root (an empty link counts as black).
pub open spec fn is_black<K, V>(t: RbLink<K, V>) -> bool {
    !is_red(t)
}

/// Number of black nodes on the leftmost path from the root down.
pub open spec fn black_height<K, V>(t: RbLink<K, V>) -> nat
    decreases t,
{
    match t {
        None => 0,
        Some(n) => black_height(n.left) + if n.aux.color == NodeColor::Black {
            1nat
        } else {
            0nat
        },
    }
}

/// Every node stores the size of its subtree.
pub open spec fn sizes_ok<K, V>(t: RbLink<K, V>) -> bool
    decreases t,
{
    match t {
        None => true,
        Some(n) => n.aux.size == size_of(Some(n)) && sizes_ok(n.left) && sizes_ok(n.right),
    }
}

/// No red node has a red child and both subtrees of every node have the same black height.
pub open spec fn rb_inv<K, V>(t: RbLink<K, V>) -> bool
    decreases t,
{
    match t {
        None => true,
        Some(n) => {
            &&& black_height(n.left) == black_height(n.right)
            &&& n.aux.color == NodeColor::Red ==> is_black(n.left) && is_black(n.right)
            &&& rb_inv(n.left)
            &&& rb_inv(n.right)
        },
    }
}

/// Like [`rb_inv`] except that the root may be red with a red child.
pub open spec fn rb_inv_loose<K, V>(t: RbLink<K, V>) -> bool {
    match t {
        None => true,
        Some(n) => {
            &&& black_height(n.left) == black_height(n.right)
            &&& rb_inv(n.left)
            &&& rb_inv(n.right)
        },
    }
}

/// The red-black rules, correct sizes and a black root.
pub open spec fn rb_ok<K, V>(t: RbLink<K, V>) -> bool {
    sizes_ok(t) && rb_inv(t) && is_black(t)
}

impl<K, V> Shape<K, V> for RbAux {
    open spec fn shape_ok(t: RbLink<K, V>) -> bool {
        rb_ok(t)
    }

    proof fn lemma_empty_shape() {
    }
}

/// Size stored at the root of a subtree (0 when empty).
fn size_at<K, V>(t: &RbLink<K, V>) -> (s: usize)
    requires
        sizes_ok(*t),
    ensures
        s == size_of(*t),
{
    match t {
        None => 0,
        Some(n) => n.aux.size,
    }
}

/// Whether the subtree has a red root.
fn red_at<K, V>(t: &RbLink<K, V>) -> (r: bool)
    ensures
        r == is_red(*t),
{
    match t {
        None => false,
        Some(n) => n.aux.color == NodeColor::Red,
    }
}

/// A node of the given colour over two ordered subtrees separated by its key.
fn mk<K: TreeKey, V>(color: NodeColor, key: K, value: V, left: RbLink<K, V>, right: RbLink<K, V>) -> (r:
    Box<Node<K, V, RbAux>>)
    requires
        sizes_ok(left),
        sizes_ok(right),
        ordered(left),
        ordered(right),
        all_below(map_of(left), key),
        all_above(map_of(right), key),
        size_of(left) + size_of(right) < usize::MAX,
    ensures
        sizes_ok(Some(r)),
        ordered(Some(r)),
        r.key == key,
        r.value == value,
        r.left == left,
        r.right == right,
        r.aux.color == color,
        map_of(Some(r)) == map_of(left).union_prefer_right(map_of(right)).insert(key, value),
        size_of(Some(r)) == size_of(left) + size_of(right) + 1,
        black_height(Some(r)) == black_height(left) + if color == NodeColor::Black {
            1nat
        } else {
            0nat
        },
        r == rb_node(color, key, value, left, right),
{
    let size = size_at(&left) + size_at(&right) + 1;
    Box::new(Node { key, value, aux: RbAux { color, size }, left, right })
}

/// The node of the given colour over two subtrees, storing its subtree's size.
pub open spec fn rb_node<K, V>(
    color: NodeColor,
    key: K,
    value: V,
    left: RbLink<K, V>,
    right: RbLink<K, V>,
) -> Box<Node<K, V, RbAux>> {
    Box::new(
        Node {
            key,
            value,
            aux: RbAux { color, size: (size_of(left) + size_of(right) + 1) as usize },
            left,
            right,
        },
    )
}

/// The same node painted black.
pub open spec fn rb_blackened<K, V>(b: Box<Node<K, V, RbAux>>) -> Box<Node<K, V, RbAux>> {
    Box::new(
        Node {
            key: b.key,
            value: b.value,
            aux: RbAux { color: NodeColor::Black, size: b.aux.size },
            left: b.left,
            right: b.right,
        },
    )
}

/// The insertion fix-up at a black node whose left child may be red with a red child (see
/// `balance_left`): recolouring when the uncle is red, else a single or double rotation.
pub open spec fn rb_fixed_left<K, V>(
    left: RbLink<K, V>,
    key: K,
    value: V,
    right: RbLink<K, V>,
) -> Box<Node<K, V, RbAux>> {
    match left {
        Some(ln) => if !is_red(left) {
            rb_node(NodeColor::Black, key, value, left, right)
        } else if (is_red(ln.left) || is_red(ln.right)) && is_red(right) {
            rb_node(
                NodeColor::Red,
                key,
                value,
                Some(rb_node(NodeColor::Black, ln.key, ln.value, ln.left, ln.right)),
                Some(rb_blackened(right->0)),
            )
        } else if is_red(ln.left) {
            rb_node(
                NodeColor::Black,
                ln.key,
                ln.value,
                ln.left,
                Some(rb_node(NodeColor::Red, key, value, ln.right, right)),
            )
        } else if is_red(ln.right) {
            let y = ln.right->0;
            rb_node(
                NodeColor::Black,
                y.key,
                y.value,
                Some(rb_node(NodeColor::Red, ln.key, ln.value, ln.left, y.left)),
                Some(rb_node(NodeColor::Red, key, value, y.right, right)),
            )
        } else {
            rb_node(
                NodeColor::Black,
                key,
                value,
                Some(rb_node(NodeColor::Red, ln.key, ln.value, ln.left, ln.right)),
                right,
            )
        },
        None => rb_node(NodeColor::Black, key, value, left, right),
    }
}

/// The mirror image of `rb_fixed_left`.
pub open spec fn rb_fixed_right<K, V>(
    left: RbLink<K, V>,
    key: K,
    value: V,
    right: RbLink<K, V>,
) -> Box<Node<K, V, RbAux>> {
    match right {
        Some(rn) => if !is_red(right) {
            rb_node(NodeColor::Black, key, value, left, right)
        } else if (is_red(rn.left) || is_red(rn.right)) && is_red(left) {
            rb_node(
                NodeColor::Red,
                key,
                value,
                Some(rb_blackened(left->0)),
                Some(rb_node(NodeColor::Black, rn.key, rn.value, rn.left, rn.right)),
            )
        } else if is_red(rn.right) {
            rb_node(
                NodeColor::Black,
                rn.key,
                rn.value,
                Some(rb_node(NodeColor::Red, key, value, left, rn.left)),
                rn.right,
            )
        } else if is_red(rn.left) {
            let y = rn.left->0;
            rb_node(
                NodeColor::Black,
                y.key,
                y.value,
                Some(rb_node(NodeColor::Red, key, value, left, y.left)),
                Some(rb_node(NodeColor::Red, rn.key, rn.value, y.right, rn.right)),
            )
        } else {
            rb_node(
                NodeColor::Black,
                key,
                value,
                left,
                Some(rb_node(NodeColor::Red, rn.key, rn.value, rn.left, rn.right)),
            )
        },
        None => rb_node(NodeColor::Black, key, value, left, right),
    }
}

/// The subtree that putting `key -> value` below `t` gives before the root is painted black: a
/// new red leaf where the search ends, the value replaced at an equal key, and the fix-up at
/// every black node on the way back up.
pub open spec fn rb_put<K: TreeKey, V>(t: RbLink<K, V>, key: K, value: V) -> Box<
    Node<K, V, RbAux>,
>
    decreases t,
{
    match t {
        None => rb_node(NodeColor::Red, key, value, None, None),
        Some(b) => if key.rank() < b.key.rank() {
            let nl = rb_put(b.left, key, value);
            if b.aux.color == NodeColor::Black {
                rb_fixed_left(Some(nl), b.key, b.value, b.right)
            } else {
                rb_node(NodeColor::Red, b.key, b.value, Some(nl), b.right)
            }
        } else if key.rank() > b.key.rank() {
            let nr = rb_put(b.right, key, value);
            if b.aux.color == NodeColor::Black {
                rb_fixed_right(b.left, b.key, b.value, Some(nr))
            } else {
                rb_node(NodeColor::Red, b.key, b.value, b.left, Some(nr))
            }
        } else {
            rb_node(b.aux.color, b.key, value, b.left, b.right)
        },
    }
}

/// The tree that inserting `key -> value` gives: the put, with a black root.
pub open spec fn rb_inserted<K: TreeKey, V>(t: RbLink<K, V>, key: K, value: V) -> RbLink<K, V> {
    Some(rb_blackened(rb_put(t, key, value)))
}

/// The fix-up at a node whose left side lost one black level, with `right` its sibling (see
/// `fix_left`): a red sibling is rotated up first; a black sibling with black children turns
/// red and passes the lack up when the node was black; otherwise one or two rotations end it.
/// Gives the new node and whether the lack remains.
pub open spec fn rb_fix_left<K, V>(
    color: NodeColor,
    key: K,
    value: V,
    left: RbLink<K, V>,
    right: RbLink<K, V>,
) -> (Box<Node<K, V, RbAux>>, bool)
    decreases right,
{
    match right {
        Some(wn) => if wn.aux.color == NodeColor::Red {
            (
                rb_node(
                    NodeColor::Black,
                    wn.key,
                    wn.value,
                    Some(rb_fix_left(NodeColor::Red, key, value, left, wn.left).0),
                    wn.right,
                ),
                false,
            )
        } else if !is_red(wn.left) && !is_red(wn.right) {
            (
                rb_node(
                    NodeColor::Black,
                    key,
                    value,
                    left,
                    Some(rb_node(NodeColor::Red, wn.key, wn.value, wn.left, wn.right)),
                ),
                color == NodeColor::Black,
            )
        } else if is_red(wn.right) {
            (
                rb_node(
                    color,
                    wn.key,
                    wn.value,
                    Some(rb_node(NodeColor::Black, key, value, left, wn.left)),
                    Some(rb_blackened(wn.right->0)),
                ),
                false,
            )
        } else {
            let y = wn.left->0;
            (
                rb_node(
                    color,
                    y.key,
                    y.value,
                    Some(rb_node(NodeColor::Black, key, value, left, y.left)),
                    Some(rb_node(NodeColor::Black, wn.key, wn.value, y.right, wn.right)),
                ),
                false,
            )
        },
        None => (rb_node(color, key, value, left, right), false),
    }
}

/// The mirror image of `rb_fix_left`: the right side lost a black level and `left` is its
/// sibling.
pub open spec fn rb_fix_right<K, V>(
    color: NodeColor,
    key: K,
    value: V,
    left: RbLink<K, V>,
    right: RbLink<K, V>,
) -> (Box<Node<K, V, RbAux>>, bool)
    decreases left,
{
    match left {
        Some(wn) => if wn.aux.color == NodeColor::Red {
            (
                rb_node(
                    NodeColor::Black,
                    wn.key,
                    wn.value,
                    wn.left,
                    Some(rb_fix_right(NodeColor::Red, key, value, wn.right, right).0),
                ),
                false,
            )
        } else if !is_red(wn.left) && !is_red(wn.right) {
            (
                rb_node(
                    NodeColor::Black,
                    key,
                    value,
                    Some(rb_node(NodeColor::Red, wn.key, wn.value, wn.left, wn.right)),
                    right,
                ),
                color == NodeColor::Black,
            )
        } else if is_red(wn.left) {
            (
                rb_node(
                    color,
                    wn.key,
                    wn.value,
                    Some(rb_blackened(wn.left->0)),
                    Some(rb_node(NodeColor::Black, key, value, wn.right, right)),
                ),
                false,
            )
        } else {
            let y = wn.right->0;
            (
                rb_node(
                    color,
                    y.key,
                    y.value,
                    Some(rb_node(NodeColor::Black, wn.key, wn.value, wn.left, y.left)),
                    Some(rb_node(NodeColor::Black, key, value, y.right, right)),
                ),
                false,
            )
        },
        None => (rb_node(color, key, value, left, right), false),
    }
}

/// What takes the place of a removed node of colour `color` with at most one child `x`, and
/// whether the place lacks a black level (see `splice_out`).
pub open spec fn rb_splice<K, V>(color: NodeColor, x: RbLink<K, V>) -> (RbLink<K, V>, bool) {
    if color == NodeColor::Black {
        if is_red(x) {
            (Some(rb_blackened(x->0)), false)
        } else {
            (x, true)
        }
    } else {
        (x, false)
    }
}

/// The node after fixing up a left side that `short` says may lack a black level.
pub open spec fn rb_after_left<K, V>(
    short: bool,
    color: NodeColor,
    key: K,
    value: V,
    left: RbLink<K, V>,
    right: RbLink<K, V>,
) -> (Box<Node<K, V, RbAux>>, bool) {
    if short {
        rb_fix_left(color, key, value, left, right)
    } else {
        (rb_node(color, key, value, left, right), false)
    }
}

/// The node after fixing up a right side that `short` says may lack a black level.
pub open spec fn rb_after_right<K, V>(
    short: bool,
    color: NodeColor,
    key: K,
    value: V,
    left: RbLink<K, V>,
    right: RbLink<K, V>,
) -> (Box<Node<K, V, RbAux>>, bool) {
    if short {
        rb_fix_right(color, key, value, left, right)
    } else {
        (rb_node(color, key, value, left, right), false)
    }
}

/// A subtree without its smallest entry, that entry, and whether the subtree lost a black
/// level (see `rb_del_min`).
pub open spec fn rb_pop_min<K, V>(b: Box<Node<K, V, RbAux>>) -> (RbLink<K, V>, K, V, bool)
    decreases b,
{
    match b.left {
        None => {
            let x = rb_splice(b.aux.color, b.right);
            (x.0, b.key, b.value, x.1)
        },
        Some(ln) => {
            let m = rb_pop_min(ln);
            let f = rb_after_left(m.3, b.aux.color, b.key, b.value, m.0, b.right);
            (Some(f.0), m.1, m.2, f.1)
        },
    }
}

/// The node that replaces a removed node with two children: the smallest entry of the right
/// subtree `rn` takes its place and colour (see `del_two_children`).
pub open spec fn rb_two_children<K, V>(
    color: NodeColor,
    left: RbLink<K, V>,
    rn: Box<Node<K, V, RbAux>>,
) -> (Box<Node<K, V, RbAux>>, bool) {
    let m = rb_pop_min(rn);
    rb_after_right(m.3, color, m.1, m.2, left, m.0)
}

/// The subtree that removing `key` from `t` gives before the root is painted black, and
/// whether it lost a black level (see `rb_del`).
pub open spec fn rb_drop<K: TreeKey, V>(t: RbLink<K, V>, key: K) -> (RbLink<K, V>, bool)
    decreases t,
{
    match t {
        None => (None, false),
        Some(b) => if key.rank() < b.key.rank() {
            let d = rb_drop(b.left, key);
            let f = rb_after_left(d.1, b.aux.color, b.key, b.value, d.0, b.right);
            (Some(f.0), f.1)
        } else if key.rank() > b.key.rank() {
            let d = rb_drop(b.right, key);
            let f = rb_after_right(d.1, b.aux.color, b.key, b.value, b.left, d.0);
            (Some(f.0), f.1)
        } else if b.left is None {
            rb_splice(b.aux.color, b.right)
        } else if b.right is None {
            rb_splice(b.aux.color, b.left)
        } else {
            let f = rb_two_children(b.aux.color, b.left, b.right->0);
            (Some(f.0), f.1)
        },
    }
}

/// The tree that removing `key` gives: the drop, with a black root; a missing key leaves the
/// tree as it is.
pub open spec fn rb_removed<K: TreeKey, V>(t: RbLink<K, V>, key: K) -> RbLink<K, V> {
    if !map_of(t).dom().contains(key) {
        t
    } else {
        match rb_drop(t, key).0 {
            None => None,
            Some(n) => Some(rb_blackened(n)),
        }
    }
}

/// The parts of an ordered red-black node with correct sizes.
proof fn lemma_parts<K: TreeKey, V>(n: Box<Node<K, V, RbAux>>)
    requires
        ordered(Some(n)),
        sizes_ok(Some(n)),
    ensures
        ordered(n.left),
        ordered(n.right),
        sizes_ok(n.left),
        sizes_ok(n.right),
        all_below(map_of(n.left), n.key),
        all_above(map_of(n.right), n.key),
        size_of(Some(n)) == size_of(n.left) + size_of(n.right) + 1,
        map_of(Some(n)) == map_of(n.left).union_prefer_right(map_of(n.right)).insert(n.key, n.value),
        forall|j: K| #[trigger] map_of(n.left).dom().contains(j) ==> map_of(Some(n)).dom().contains(j),
        forall|j: K| #[trigger] map_of(n.right).dom().contains(j) ==> map_of(Some(n)).dom().contains(j),
{
    lemma_map_facts(n);
}

/// A loosely valid subtree with a black root, or whose root has black children, is valid.
proof fn lemma_loose_ok<K, V>(t: RbLink<K, V>)
    requires
        rb_inv_loose(t),
        is_black(t) || (t matches Some(n) && is_black(n.left) && is_black(n.right)),
    ensures
        rb_inv(t),
{
}

/// A red root has at most one red child.
pub open spec fn one_red_child<K, V>(t: RbLink<K, V>) -> bool {
    match t {
        None => true,
        Some(n) => n.aux.color == NodeColor::Red ==> !(is_red(n.left) && is_red(n.right)),
    }
}

/// The same node with a black root.
fn paint_black<K: TreeKey, V>(b: Box<Node<K, V, RbAux>>) -> (r: Box<Node<K, V, RbAux>>)
    ensures
        r.key == b.key && r.value == b.value && r.left == b.left && r.right == b.right,
        r.aux.size == b.aux.size,
        r.aux.color == NodeColor::Black,
        r == rb_blackened(b),
{
    let mut n = b;
    n.aux.color = NodeColor::Black;
    n
}

/// A black node over `left` and `right` where `left` may be red with one red child: the
/// insertion fix-up at a grandparent. When the other child (the uncle) is red too, the two
/// children turn black and the node red; otherwise a single or double rotation makes the
/// middle key a black root over two red nodes.
#[verifier::rlimit(40)]
fn balance_left<K: TreeKey, V>(left: RbLink<K, V>, key: K, value: V, right: RbLink<K, V>) -> (r: Box<
    Node<K, V, RbAux>,
>)
    requires
        rb_inv_loose(left),
        one_red_child(left),
        rb_inv(right),
        black_height(left) == black_height(right),
        sizes_ok(left),
        sizes_ok(right),
        ordered(left),
        ordered(right),
        all_below(map_of(left), key),
        all_above(map_of(right), key),
        size_of(left) + size_of(right) < usize::MAX,
    ensures
        rb_inv(Some(r)),
        black_height(Some(r)) == black_height(right) + 1,
        sizes_ok(Some(r)),
        ordered(Some(r)),
        map_of(Some(r)) == map_of(left).union_prefer_right(map_of(right)).insert(key, value),
        size_of(Some(r)) == size_of(left) + size_of(right) + 1,
        r == rb_fixed_left(left, key, value, right),
{
    if !red_at(&left) {
        proof {
            lemma_loose_ok(left);
        }
        return mk(NodeColor::Black, key, value, left, right);
    }
    let ln = left.unwrap();
    proof {
        lemma_parts(ln);
        assert(map_of(left).dom().contains(ln.key));
    }
    let Node { key: lk, value: lv, aux: _, left: ll, right: lr } = *ln;
    if (red_at(&ll) || red_at(&lr)) && red_at(&right) {
        let rn = right.unwrap();
        proof {
            lemma_parts(rn);
        }
        let u = paint_black(rn);
        proof {
            assert(map_of(Some(u)) =~= map_of(right)) by {
                lemma_parts(u);
            }
            assert(sizes_ok(Some(u)));
            assert(ordered(Some(u)));
        }
        let c = mk(NodeColor::Black, lk, lv, ll, lr);
        proof {
            assert(map_of(Some(c)) =~= map_of(left));
        }
        let r = mk(NodeColor::Red, key, value, Some(c), Some(u));
        proof {
            assert(rb_inv(Some(c)));
            assert(rb_inv(Some(u)));
            assert(map_of(Some(r)) =~= map_of(left).union_prefer_right(map_of(right)).insert(
                key,
                value,
            ));
        }
        r
    } else if red_at(&ll) {
        proof {
            let lln = ll->0;
            lemma_parts(lln);
            assert(map_of(ll).dom().contains(lln.key));
            assert(all_below(map_of(lr), key));
        }
        let n2 = mk(NodeColor::Red, key, value, lr, right);
        proof {
            assert(all_above(map_of(Some(n2)), lk));
        }
        let r = mk(NodeColor::Black, lk, lv, ll, Some(n2));
        proof {
            assert(rb_inv(Some(n2)));
            assert(rb_inv(Some(r)));
            assert(map_of(Some(r)) =~= map_of(left).union_prefer_right(map_of(right)).insert(
                key,
                value,
            ));
        }
        r
    } else if red_at(&lr) {
        let lrn = lr.unwrap();
        proof {
            lemma_parts(lrn);
            assert(map_of(lr).dom().contains(lrn.key));
            assert(map_of(left).dom().contains(lrn.key));
        }
        let Node { key: yk, value: yv, aux: _, left: b, right: c } = *lrn;
        proof {
            assert(all_above(map_of(b), lk));
            assert(all_below(map_of(c), key));
            assert(all_below(map_of(ll), yk));
            assert(all_above(map_of(right), yk));
        }
        let n1 = mk(NodeColor::Red, lk, lv, ll, b);
        let n2 = mk(NodeColor::Red, key, value, c, right);
        proof {
            assert(all_below(map_of(Some(n1)), yk));
            assert(all_above(map_of(Some(n2)), yk));
        }
        let r = mk(NodeColor::Black, yk, yv, Some(n1), Some(n2));
        proof {
            assert(rb_inv(Some(n1)));
            assert(rb_inv(Some(n2)));
            assert(rb_inv(Some(r)));
            assert(map_of(Some(r)) =~= map_of(left).union_prefer_right(map_of(right)).insert(
                key,
                value,
            ));
        }
        r
    } else {
        let l2 = mk(NodeColor::Red, lk, lv, ll, lr);
        proof {
            assert(map_of(Some(l2)) =~= map_of(left));
            assert(rb_inv(Some(l2)));
        }
        mk(NodeColor::Black, key, value, Some(l2), right)
    }
}

/// The mirror image of [`balance_left`]: `right` may be red with one red child.
#[verifier::rlimit(40)]
fn balance_right<K: TreeKey, V>(left: RbLink<K, V>, key: K, value: V, right: RbLink<K, V>) -> (r: Box<
    Node<K, V, RbAux>,
>)
    requires
        rb_inv(left),
        rb_inv_loose(right),
        one_red_child(right),
        black_height(left) == black_height(right),
        sizes_ok(left),
        sizes_ok(right),
        ordered(left),
        ordered(right),
        all_below(map_of(left), key),
        all_above(map_of(right), key),
        size_of(left) + size_of(right) < usize::MAX,
    ensures
        rb_inv(Some(r)),
        black_height(Some(r)) == black_height(left) + 1,
        sizes_ok(Some(r)),
        ordered(Some(r)),
        map_of(Some(r)) == map_of(left).union_prefer_right(map_of(right)).insert(key, value),
        size_of(Some(r)) == size_of(left) + size_of(right) + 1,
        r == rb_fixed_right(left, key, value, right),
{
    if !red_at(&right) {
        proof {
            lemma_loose_ok(right);
        }
        return mk(NodeColor::Black, key, value, left, right);
    }
    let rn = right.unwrap();
    proof {
        lemma_parts(rn);
        assert(map_of(right).dom().contains(rn.key));
    }
    let Node { key: rk, value: rv, aux: _, left: rl, right: rr } = *rn;
    if (red_at(&rl) || red_at(&rr)) && red_at(&left) {
        let lnode = left.unwrap();
        proof {
            lemma_parts(lnode);
        }
        let u = paint_black(lnode);
        proof {
            assert(map_of(Some(u)) =~= map_of(left)) by {
                lemma_parts(u);
            }
            assert(sizes_ok(Some(u)));
            assert(ordered(Some(u)));
        }
        let c = mk(NodeColor::Black, rk, rv, rl, rr);
        proof {
            assert(map_of(Some(c)) =~= map_of(right));
        }
        let r = mk(NodeColor::Red, key, value, Some(u), Some(c));
        proof {
            assert(rb_inv(Some(c)));
            assert(rb_inv(Some(u)));
            assert(map_of(Some(r)) =~= map_of(left).union_prefer_right(map_of(right)).insert(
                key,
                value,
            ));
        }
        r
    } else if red_at(&rr) {
        proof {
            let rrn = rr->0;
            lemma_parts(rrn);
            assert(map_of(rr).dom().contains(rrn.key));
            assert(all_above(map_of(rl), key));
        }
        let n1 = mk(NodeColor::Red, key, value, left, rl);
        proof {
            assert(all_below(map_of(Some(n1)), rk));
        }
        let r = mk(NodeColor::Black, rk, rv, Some(n1), rr);
        proof {
            assert(rb_inv(Some(n1)));
            assert(rb_inv(Some(r)));
            assert(map_of(Some(r)) =~= map_of(left).union_prefer_right(map_of(right)).insert(
                key,
                value,
            ));
        }
        r
    } else if red_at(&rl) {
        let rln = rl.unwrap();
        proof {
            lemma_parts(rln);
            assert(map_of(rl).dom().contains(rln.key));
            assert(map_of(right).dom().contains(rln.key));
        }
        let Node { key: yk, value: yv, aux: _, left: b, right: c } = *rln;
        proof {
            assert(all_above(map_of(b), key));
            assert(all_below(map_of(c), rk));
            assert(all_below(map_of(left), yk));
            assert(all_above(map_of(rr), yk));
        }
        let n1 = mk(NodeColor::Red, key, value, left, b);
        let n2 = mk(NodeColor::Red, rk, rv, c, rr);
        proof {
            assert(all_below(map_of(Some(n1)), yk));
            assert(all_above(map_of(Some(n2)), yk));
        }
        let r = mk(NodeColor::Black, yk, yv, Some(n1), Some(n2));
        proof {
            assert(rb_inv(Some(n1)));
            assert(rb_inv(Some(n2)));
            assert(rb_inv(Some(r)));
            assert(map_of(Some(r)) =~= map_of(left).union_prefer_right(map_of(right)).insert(
                key,
                value,
            ));
        }
        r
    } else {
        let r2 = mk(NodeColor::Red, rk, rv, rl, rr);
        proof {
            assert(map_of(Some(r2)) =~= map_of(right));
            assert(rb_inv(Some(r2)));
        }
        mk(NodeColor::Black, key, value, left, Some(r2))
    }
}

/// Adds `key -> value` below a subtree, rebalancing black nodes on the way back up. The result
/// keeps the black height; it is valid when the subtree's root is black, and otherwise may
/// have a red root with one red child.
fn rb_ins<K: TreeKey, V>(t: RbLink<K, V>, key: K, value: V) -> (r: (Box<Node<K, V, RbAux>>, Option<V>))
    requires
        rb_inv(t),
        sizes_ok(t),
        ordered(t),
        size_of(t) < usize::MAX,
    ensures
        sizes_ok(Some(r.0)),
        ordered(Some(r.0)),
        map_of(Some(r.0)) == map_of(t).insert(key, value),
        r.1 == (if map_of(t).dom().contains(key) {
            Some(map_of(t)[key])
        } else {
            None::<V>
        }),
        size_of(Some(r.0)) == size_of(t) + (if r.1 is Some {
            0int
        } else {
            1int
        }),
        black_height(Some(r.0)) == black_height(t),
        rb_inv_loose(Some(r.0)),
        one_red_child(Some(r.0)),
        is_black(t) ==> rb_inv(Some(r.0)),
        r.0 == rb_put(t, key, value),
    decreases t,
{
    match t {
        None => {
            let n = mk(NodeColor::Red, key, value, None, None);
            proof {
                assert(map_of(Some(n)) =~= map_of(t).insert(key, value));
            }
            (n, None)
        },
        Some(b) => {
            proof {
                lemma_parts(b);
                lemma_map_finite_size(t);
                assert(rb_inv(b.left) && rb_inv(b.right));
            }
            let Node { key: k, value: v, aux, left, right } = *b;
            match key.compare(&k) {
                KeyOrder::Equal => {
                    let n = mk(aux.color, k, value, left, right);
                    proof {
                        assert(map_of(Some(n)) =~= map_of(t).insert(key, value));
                    }
                    (n, Some(v))
                },
                KeyOrder::Less => {
                    let (nl, old) = rb_ins(left, key, value);
                    proof {
                        assert(all_below(map_of(Some(nl)), k));
                    }
                    let n = if aux.color == NodeColor::Black {
                        balance_left(Some(nl), k, v, right)
                    } else {
                        mk(NodeColor::Red, k, v, Some(nl), right)
                    };
                    proof {
                        assert(map_of(Some(n)) =~= map_of(t).insert(key, value));
                    }
                    (n, old)
                },
                KeyOrder::Greater => {
                    let (nr, old) = rb_ins(right, key, value);
                    proof {
                        assert(all_above(map_of(Some(nr)), k));
                    }
                    let n = if aux.color == NodeColor::Black {
                        balance_right(left, k, v, Some(nr))
                    } else {
                        mk(NodeColor::Red, k, v, left, Some(nr))
                    };
                    proof {
                        assert(map_of(Some(n)) =~= map_of(t).insert(key, value));
                    }
                    (n, old)
                },
            }
        },
    }
}

/// What the node `rb_node` builds over two ordered subtrees separated by its key keeps.
pub proof fn lemma_rb_node<K: TreeKey, V>(color: NodeColor, key: K, value: V, left: RbLink<K, V>, right: RbLink<K, V>)
    requires
        sizes_ok(left),
        sizes_ok(right),
        ordered(left),
        ordered(right),
        all_below(map_of(left), key),
        all_above(map_of(right), key),
        size_of(left) + size_of(right) < usize::MAX,
    ensures
        sizes_ok(Some(rb_node(color, key, value, left, right))),
        ordered(Some(rb_node(color, key, value, left, right))),
        map_of(Some(rb_node(color, key, value, left, right))) == map_of(left).union_prefer_right(map_of(right)).insert(
            key,
            value,
        ),
        size_of(Some(rb_node(color, key, value, left, right))) == size_of(left) + size_of(right) + 1,
        black_height(Some(rb_node(color, key, value, left, right))) == black_height(left) + if color
            == NodeColor::Black {
            1nat
        } else {
            0nat
        },
{
}

/// What the insertion fix-up `rb_fixed_left` gives: a valid subtree one black level above
/// `right`, with the entries of both sides and the new one.
#[verifier::rlimit(60)]
pub proof fn lemma_rb_fixed_left<K: TreeKey, V>(left: RbLink<K, V>, key: K, value: V, right: RbLink<K, V>)
    requires
        rb_inv_loose(left),
        one_red_child(left),
        rb_inv(right),
        black_height(left) == black_height(right),
        sizes_ok(left),
        sizes_ok(right),
        ordered(left),
        ordered(right),
        all_below(map_of(left), key),
        all_above(map_of(right), key),
        size_of(left) + size_of(right) < usize::MAX,
    ensures
        rb_inv(Some(rb_fixed_left(left, key, value, right))),
        black_height(Some(rb_fixed_left(left, key, value, right))) == black_height(right) + 1,
        sizes_ok(Some(rb_fixed_left(left, key, value, right))),
        ordered(Some(rb_fixed_left(left, key, value, right))),
        map_of(Some(rb_fixed_left(left, key, value, right))) == map_of(left).union_prefer_right(map_of(right)).insert(
            key,
            value,
        ),
        size_of(Some(rb_fixed_left(left, key, value, right))) == size_of(left) + size_of(right) + 1,
{
    let r = rb_fixed_left(left, key, value, right);
    if !is_red(left) {
        lemma_loose_ok(left);
        lemma_rb_node(NodeColor::Black, key, value, left, right);
    } else {
        let ln = left->0;
        lemma_parts(ln);
        assert(map_of(left).dom().contains(ln.key));
        let lk = ln.key;
        let lv = ln.value;
        let ll = ln.left;
        let lr = ln.right;
        if (is_red(ll) || is_red(lr)) && is_red(right) {
            let rn = right->0;
            lemma_parts(rn);
            let u = rb_blackened(rn);
            assert(sizes_ok(Some(u)));
            assert(ordered(Some(u)));
            assert(map_of(Some(u)) =~= map_of(right)) by {
                lemma_parts(u);
            }
            lemma_rb_node(NodeColor::Black, lk, lv, ll, lr);
            let c = rb_node(NodeColor::Black, lk, lv, ll, lr);
            assert(map_of(Some(c)) =~= map_of(left));
            lemma_rb_node(NodeColor::Red, key, value, Some(c), Some(u));
            assert(rb_inv(Some(c)));
            assert(rb_inv(Some(u)));
            assert(map_of(Some(r)) =~= map_of(left).union_prefer_right(map_of(right)).insert(key, value));
        } else if is_red(ll) {
            let lln = ll->0;
            lemma_parts(lln);
            assert(map_of(ll).dom().contains(lln.key));
            assert(all_below(map_of(lr), key));
            lemma_rb_node(NodeColor::Red, key, value, lr, right);
            let n2 = rb_node(NodeColor::Red, key, value, lr, right);
            assert(all_above(map_of(Some(n2)), lk));
            lemma_rb_node(NodeColor::Black, lk, lv, ll, Some(n2));
            assert(rb_inv(Some(n2)));
            assert(rb_inv(Some(r)));
            assert(map_of(Some(r)) =~= map_of(left).union_prefer_right(map_of(right)).insert(key, value));
        } else if is_red(lr) {
            let lrn = lr->0;
            lemma_parts(lrn);
            assert(map_of(lr).dom().contains(lrn.key));
            assert(map_of(left).dom().contains(lrn.key));
            let yk = lrn.key;
            let yv = lrn.value;
            let b = lrn.left;
            let c = lrn.right;
            assert(all_above(map_of(b), lk));
            assert(all_below(map_of(c), key));
            assert(all_below(map_of(ll), yk));
            assert(all_above(map_of(right), yk));
            lemma_rb_node(NodeColor::Red, lk, lv, ll, b);
            lemma_rb_node(NodeColor::Red, key, value, c, right);
            let n1 = rb_node(NodeColor::Red, lk, lv, ll, b);
            let n2 = rb_node(NodeColor::Red, key, value, c, right);
            assert(all_below(map_of(Some(n1)), yk));
            assert(all_above(map_of(Some(n2)), yk));
            lemma_rb_node(NodeColor::Black, yk, yv, Some(n1), Some(n2));
            assert(rb_inv(Some(n1)));
            assert(rb_inv(Some(n2)));
            assert(rb_inv(Some(r)));
            assert(map_of(Some(r)) =~= map_of(left).union_prefer_right(map_of(right)).insert(key, value));
        } else {
            lemma_rb_node(NodeColor::Red, lk, lv, ll, lr);
            let l2 = rb_node(NodeColor::Red, lk, lv, ll, lr);
            assert(map_of(Some(l2)) =~= map_of(left));
            assert(rb_inv(Some(l2)));
            lemma_rb_node(NodeColor::Black, key, value, Some(l2), right);
        }
    }
}

/// The mirror image of [`lemma_rb_fixed_left`].
#[verifier::rlimit(60)]
pub proof fn lemma_rb_fixed_right<K: TreeKey, V>(left: RbLink<K, V>, key: K, value: V, right: RbLink<K, V>)
    requires
        rb_inv(left),
        rb_inv_loose(right),
        one_red_child(right),
        black_height(left) == black_height(right),
        sizes_ok(left),
        sizes_ok(right),
        ordered(left),
        ordered(right),
        all_below(map_of(left), key),
        all_above(map_of(right), key),
        size_of(left) + size_of(right) < usize::MAX,
    ensures
        rb_inv(Some(rb_fixed_right(left, key, value, right))),
        black_height(Some(rb_fixed_right(left, key, value, right))) == black_height(left) + 1,
        sizes_ok(Some(rb_fixed_right(left, key, value, right))),
        ordered(Some(rb_fixed_right(left, key, value, right))),
        map_of(Some(rb_fixed_right(left, key, value, right))) == map_of(left).union_prefer_right(map_of(right)).insert(
            key,
            value,
        ),
        size_of(Some(rb_fixed_right(left, key, value, right))) == size_of(left) + size_of(right) + 1,
{
    let r = rb_fixed_right(left, key, value, right);
    if !is_red(right) {
        lemma_loose_ok(right);
        lemma_rb_node(NodeColor::Black, key, value, left, right);
    } else {
        let rn = right->0;
        lemma_parts(rn);
        assert(map_of(right).dom().contains(rn.key));
        let rk = rn.key;
        let rv = rn.value;
        let rl = rn.left;
        let rr = rn.right;
        if (is_red(rl) || is_red(rr)) && is_red(left) {
            let lnode = left->0;
            lemma_parts(lnode);
            let u = rb_blackened(lnode);
            assert(sizes_ok(Some(u)));
            assert(ordered(Some(u)));
            assert(map_of(Some(u)) =~= map_of(left)) by {
                lemma_parts(u);
            }
            lemma_rb_node(NodeColor::Black, rk, rv, rl, rr);
            let c = rb_node(NodeColor::Black, rk, rv, rl, rr);
            assert(map_of(Some(c)) =~= map_of(right));
            lemma_rb_node(NodeColor::Red, key, value, Some(u), Some(c));
            assert(rb_inv(Some(c)));
            assert(rb_inv(Some(u)));
            assert(map_of(Some(r)) =~= map_of(left).union_prefer_right(map_of(right)).insert(key, value));
        } else if is_red(rr) {
            let rrn = rr->0;
            lemma_parts(rrn);
            assert(map_of(rr).dom().contains(rrn.key));
            assert(all_above(map_of(rl), key));
            lemma_rb_node(NodeColor::Red, key, value, left, rl);
            let n1 = rb_node(NodeColor::Red, key, value, left, rl);
            assert(all_below(map_of(Some(n1)), rk));
            lemma_rb_node(NodeColor::Black, rk, rv, Some(n1), rr);
            assert(rb_inv(Some(n1)));
            assert(rb_inv(Some(r)));
            assert(map_of(Some(r)) =~= map_of(left).union_prefer_right(map_of(right)).insert(key, value));
        } else if is_red(rl) {
            let rln = rl->0;
            lemma_parts(rln);
            assert(map_of(rl).dom().contains(rln.key));
            assert(map_of(right).dom().contains(rln.key));
            let yk = rln.key;
            let yv = rln.value;
            let b = rln.left;
            let c = rln.right;
            assert(all_above(map_of(b), key));
            assert(all_below(map_of(c), rk));
            assert(all_below(map_of(left), yk));
            assert(all_above(map_of(rr), yk));
            lemma_rb_node(NodeColor::Red, key, value, left, b);
            lemma_rb_node(NodeColor::Red, rk, rv, c, rr);
            let n1 = rb_node(NodeColor::Red, key, value, left, b);
            let n2 = rb_node(NodeColor::Red, rk, rv, c, rr);
            assert(all_below(map_of(Some(n1)), yk));
            assert(all_above(map_of(Some(n2)), yk));
            lemma_rb_node(NodeColor::Black, yk, yv, Some(n1), Some(n2));
            assert(rb_inv(Some(n1)));
            assert(rb_inv(Some(n2)));
            assert(rb_inv(Some(r)));
            assert(map_of(Some(r)) =~= map_of(left).union_prefer_right(map_of(right)).insert(key, value));
        } else {
            lemma_rb_node(NodeColor::Red, rk, rv, rl, rr);
            let r2 = rb_node(NodeColor::Red, rk, rv, rl, rr);
            assert(map_of(Some(r2)) =~= map_of(right));
            assert(rb_inv(Some(r2)));
            lemma_rb_node(NodeColor::Black, key, value, left, Some(r2));
        }
    }
}

/// What `rb_put` gives: the entries with the new one, the same black height, every node's
/// size, and the red-black rules except that a red root may have one red child.
#[verifier::spinoff_prover]
#[verifier::rlimit(40)]
pub proof fn lemma_rb_put<K: TreeKey, V>(t: RbLink<K, V>, key: K, value: V)
    requires
        rb_inv(t),
        sizes_ok(t),
        ordered(t),
        size_of(t) < usize::MAX,
    ensures
        sizes_ok(Some(rb_put(t, key, value))),
        ordered(Some(rb_put(t, key, value))),
        map_of(Some(rb_put(t, key, value))) == map_of(t).insert(key, value),
        size_of(Some(rb_put(t, key, value))) == size_of(t) + (if map_of(t).dom().contains(key) {
            0int
        } else {
            1int
        }),
        black_height(Some(rb_put(t, key, value))) == black_height(t),
        rb_inv_loose(Some(rb_put(t, key, value))),
        one_red_child(Some(rb_put(t, key, value))),
        is_black(t) ==> rb_inv(Some(rb_put(t, key, value))),
    decreases t,
{
    match t {
        None => {
            lemma_rb_node(NodeColor::Red, key, value, None, None);
            assert(map_of(Some(rb_put(t, key, value))) =~= map_of(t).insert(key, value));
        },
        Some(b) => {
            lemma_parts(b);
            lemma_map_finite_size(t);
            assert(rb_inv(b.left) && rb_inv(b.right));
            if key.rank() < b.key.rank() {
                lemma_rb_put(b.left, key, value);
                let nl = rb_put(b.left, key, value);
                assert(all_below(map_of(Some(nl)), b.key));
                if b.aux.color == NodeColor::Black {
                    lemma_rb_fixed_left(Some(nl), b.key, b.value, b.right);
                } else {
                    lemma_rb_node(NodeColor::Red, b.key, b.value, Some(nl), b.right);
                }
                assert(map_of(Some(rb_put(t, key, value))) =~= map_of(t).insert(key, value));
            } else if key.rank() > b.key.rank() {
                lemma_rb_put(b.right, key, value);
                let nr = rb_put(b.right, key, value);
                assert(all_above(map_of(Some(nr)), b.key));
                if b.aux.color == NodeColor::Black {
                    lemma_rb_fixed_right(b.left, b.key, b.value, Some(nr));
                } else {
                    lemma_rb_node(NodeColor::Red, b.key, b.value, b.left, Some(nr));
                }
                assert(map_of(Some(rb_put(t, key, value))) =~= map_of(t).insert(key, value));
            } else {
                K::lemma_rank_injective(key, b.key);
                lemma_rb_node(b.aux.color, b.key, value, b.left, b.right);
                assert(map_of(Some(rb_put(t, key, value))) =~= map_of(t).insert(key, value));
            }
        },
    }
}

/// The black height that a node of colour `c` over a child of black height `h` has.
pub open spec fn bh_over(c: NodeColor, h: nat) -> nat {
    h + if c == NodeColor::Black {
        1nat
    } else {
        0nat
    }
}

/// The deletion fix-up at a node whose left subtree lost one black level: `left` is the
/// doubly black subtree and `right` its sibling. The four cases: a red sibling is rotated up
/// and the fix-up goes on below it; a black sibling with black children turns red and passes
/// the lost level up unless the node is red, which turns black; a black sibling whose far
/// child is black but near child red is rotated right; a black sibling with a red far child
/// is rotated up into the node's place and colour, the node and the far child turning black.
/// The result's flag says whether the subtree still lacks a black level.
#[verifier::rlimit(60)]
fn fix_left<K: TreeKey, V>(color: NodeColor, key: K, value: V, left: RbLink<K, V>, right: RbLink<
    K,
    V,
>) -> (r: (Box<Node<K, V, RbAux>>, bool))
    requires
        rb_inv(left),
        rb_inv(right),
        is_black(left),
        black_height(left) + 1 == black_height(right),
        color == NodeColor::Red ==> is_black(right),
        sizes_ok(left),
        sizes_ok(right),
        ordered(left),
        ordered(right),
        all_below(map_of(left), key),
        all_above(map_of(right), key),
        size_of(left) + size_of(right) < usize::MAX,
    ensures
        rb_inv(Some(r.0)),
        sizes_ok(Some(r.0)),
        ordered(Some(r.0)),
        map_of(Some(r.0)) == map_of(left).union_prefer_right(map_of(right)).insert(key, value),
        size_of(Some(r.0)) == size_of(left) + size_of(right) + 1,
        r.1 ==> black_height(Some(r.0)) + 1 == bh_over(color, black_height(right)) && is_black(
            Some(r.0),
        ),
        !r.1 ==> black_height(Some(r.0)) == bh_over(color, black_height(right)),
        is_red(Some(r.0)) ==> color == NodeColor::Red,
        color == NodeColor::Red ==> !r.1,
        r == rb_fix_left(color, key, value, left, right),
    decreases right,
{
    let wn = right.unwrap();
    proof {
        lemma_parts(wn);
        assert(map_of(right).dom().contains(wn.key));
        assert(rb_inv(wn.left) && rb_inv(wn.right));
        assert(black_height(wn.left) == black_height(wn.right));
    }
    let Node { key: wk, value: wv, aux: waux, left: wl, right: wr } = *wn;
    if waux.color == NodeColor::Red {
        proof {
            assert(wl is Some && wr is Some);
            assert(all_above(map_of(wl), key));
            assert(all_below(map_of(left), wk));
        }
        let (inner, _) = fix_left(NodeColor::Red, key, value, left, wl);
        proof {
            assert(all_below(map_of(Some(inner)), wk));
        }
        let r = mk(NodeColor::Black, wk, wv, Some(inner), wr);
        proof {
            assert(rb_inv(Some(r)));
            assert(map_of(Some(r)) =~= map_of(left).union_prefer_right(map_of(right)).insert(
                key,
                value,
            ));
        }
        return (r, false);
    }
    if !red_at(&wl) && !red_at(&wr) {
        let w2 = mk(NodeColor::Red, wk, wv, wl, wr);
        proof {
            assert(map_of(Some(w2)) =~= map_of(right));
            assert(rb_inv(Some(w2)));
        }
        let r = mk(NodeColor::Black, key, value, left, Some(w2));
        proof {
            assert(rb_inv(Some(r)));
            assert(map_of(Some(r)) =~= map_of(left).union_prefer_right(map_of(right)).insert(
                key,
                value,
            ));
        }
        return (r, color == NodeColor::Black);
    }
    if red_at(&wr) {
        let frn = wr.unwrap();
        proof {
            lemma_parts(frn);
            assert(rb_inv(frn.left) && rb_inv(frn.right));
            assert(black_height(frn.left) == black_height(frn.right));
            assert(all_above(map_of(wl), key));
            assert(all_below(map_of(left), wk));
        }
        let far = paint_black(frn);
        proof {
            lemma_parts(far);
            assert(map_of(Some(far)) =~= map_of(wr));
            assert(sizes_ok(Some(far)));
            assert(ordered(Some(far)));
        }
        let p = mk(NodeColor::Black, key, value, left, wl);
        proof {
            assert(all_below(map_of(Some(p)), wk));
        }
        let r = mk(color, wk, wv, Some(p), Some(far));
        proof {
            assert(rb_inv(Some(p)));
            assert(rb_inv(Some(far)));
            assert(rb_inv(Some(r)));
            assert(map_of(Some(r)) =~= map_of(left).union_prefer_right(map_of(right)).insert(
                key,
                value,
            ));
        }
        (r, false)
    } else {
        let nn = wl.unwrap();
        proof {
            lemma_parts(nn);
            assert(rb_inv(nn.left) && rb_inv(nn.right));
            assert(black_height(nn.left) == black_height(nn.right));
            assert(black_height(wl) == black_height(nn.left));
            assert(map_of(wl).dom().contains(nn.key));
            assert(map_of(right).dom().contains(nn.key));
        }
        let Node { key: yk, value: yv, aux: _, left: a, right: b } = *nn;
        proof {
            assert(all_above(map_of(a), key));
            assert(all_below(map_of(b), wk));
            assert(all_below(map_of(left), yk));
            assert(all_above(map_of(wr), yk));
        }
        let p = mk(NodeColor::Black, key, value, left, a);
        let q = mk(NodeColor::Black, wk, wv, b, wr);
        proof {
            assert(all_below(map_of(Some(p)), yk));
            assert(all_above(map_of(Some(q)), yk));
        }
        let r = mk(color, yk, yv, Some(p), Some(q));
        proof {
            assert(rb_inv(Some(p)));
            assert(rb_inv(Some(q)));
            assert(rb_inv(Some(r)));
            assert(map_of(Some(r)) =~= map_of(left).union_prefer_right(map_of(right)).insert(
                key,
                value,
            ));
        }
        (r, false)
    }
}

/// The mirror image of [`fix_left`]: `right` lost one black level and `left` is its sibling.
#[verifier::rlimit(60)]
fn fix_right<K: TreeKey, V>(color: NodeColor, key: K, value: V, left: RbLink<K, V>, right: RbLink<
    K,
    V,
>) -> (r: (Box<Node<K, V, RbAux>>, bool))
    requires
        rb_inv(left),
        rb_inv(right),
        is_black(right),
        black_height(right) + 1 == black_height(left),
        color == NodeColor::Red ==> is_black(left),
        sizes_ok(left),
        sizes_ok(right),
        ordered(left),
        ordered(right),
        all_below(map_of(left), key),
        all_above(map_of(right), key),
        size_of(left) + size_of(right) < usize::MAX,
    ensures
        rb_inv(Some(r.0)),
        sizes_ok(Some(r.0)),
        ordered(Some(r.0)),
        map_of(Some(r.0)) == map_of(left).union_prefer_right(map_of(right)).insert(key, value),
        size_of(Some(r.0)) == size_of(left) + size_of(right) + 1,
        r.1 ==> black_height(Some(r.0)) + 1 == bh_over(color, black_height(left)) && is_black(
            Some(r.0),
        ),
        !r.1 ==> black_height(Some(r.0)) == bh_over(color, black_height(left)),
        is_red(Some(r.0)) ==> color == NodeColor::Red,
        color == NodeColor::Red ==> !r.1,
        r == rb_fix_right(color, key, value, left, right),
    decreases left,
{
    let wn = left.unwrap();
    proof {
        lemma_parts(wn);
        assert(map_of(left).dom().contains(wn.key));
        assert(rb_inv(wn.left) && rb_inv(wn.right));
        assert(black_height(wn.left) == black_height(wn.right));
    }
    let Node { key: wk, value: wv, aux: waux, left: wl, right: wr } = *wn;
    if waux.color == NodeColor::Red {
        proof {
            assert(wl is Some && wr is Some);
            assert(all_below(map_of(wr), key));
            assert(all_above(map_of(right), wk));
        }
        let (inner, _) = fix_right(NodeColor::Red, key, value, wr, right);
        proof {
            assert(all_above(map_of(Some(inner)), wk));
        }
        let r = mk(NodeColor::Black, wk, wv, wl, Some(inner));
        proof {
            assert(rb_inv(Some(r)));
            assert(map_of(Some(r)) =~= map_of(left).union_prefer_right(map_of(right)).insert(
                key,
                value,
            ));
        }
        return (r, false);
    }
    if !red_at(&wl) && !red_at(&wr) {
        let w2 = mk(NodeColor::Red, wk, wv, wl, wr);
        proof {
            assert(map_of(Some(w2)) =~= map_of(left));
            assert(rb_inv(Some(w2)));
        }
        let r = mk(NodeColor::Black, key, value, Some(w2), right);
        proof {
            assert(rb_inv(Some(r)));
            assert(map_of(Some(r)) =~= map_of(left).union_prefer_right(map_of(right)).insert(
                key,
                value,
            ));
        }
        return (r, color == NodeColor::Black);
    }
    if red_at(&wl) {
        let fln = wl.unwrap();
        proof {
            lemma_parts(fln);
            assert(rb_inv(fln.left) && rb_inv(fln.right));
            assert(black_height(fln.left) == black_height(fln.right));
            assert(all_below(map_of(wr), key));
            assert(all_above(map_of(right), wk));
        }
        let far = paint_black(fln);
        proof {
            lemma_parts(far);
            assert(map_of(Some(far)) =~= map_of(wl));
            assert(sizes_ok(Some(far)));
            assert(ordered(Some(far)));
        }
        let p = mk(NodeColor::Black, key, value, wr, right);
        proof {
            assert(all_above(map_of(Some(p)), wk));
        }
        let r = mk(color, wk, wv, Some(far), Some(p));
        proof {
            assert(rb_inv(Some(p)));
            assert(rb_inv(Some(far)));
            assert(rb_inv(Some(r)));
            assert(map_of(Some(r)) =~= map_of(left).union_prefer_right(map_of(right)).insert(
                key,
                value,
            ));
        }
        (r, false)
    } else {
        let nn = wr.unwrap();
        proof {
            lemma_parts(nn);
            assert(rb_inv(nn.left) && rb_inv(nn.right));
            assert(black_height(nn.left) == black_height(nn.right));
            assert(black_height(wr) == black_height(nn.left));
            assert(map_of(wr).dom().contains(nn.key));
            assert(map_of(left).dom().contains(nn.key));
        }
        let Node { key: yk, value: yv, aux: _, left: b, right: c } = *nn;
        proof {
            assert(all_below(map_of(c), key));
            assert(all_above(map_of(b), wk));
            assert(all_above(map_of(right), yk));
            assert(all_below(map_of(wl), yk));
        }
        let q = mk(NodeColor::Black, wk, wv, wl, b);
        let p = mk(NodeColor::Black, key, value, c, right);
        proof {
            assert(all_below(map_of(Some(q)), yk));
            assert(all_above(map_of(Some(p)), yk));
        }
        let r = mk(color, yk, yv, Some(q), Some(p));
        proof {
            assert(rb_inv(Some(p)));
            assert(rb_inv(Some(q)));
            assert(rb_inv(Some(r)));
            assert(map_of(Some(r)) =~= map_of(left).union_prefer_right(map_of(right)).insert(
                key,
                value,
            ));
        }
        (r, false)
    }
}

/// The subtree that takes the place of a removed node with at most one child `x`: when the
/// removed node was black, a red `x` turns black; otherwise the place lacks a black level.
fn splice_out<K: TreeKey, V>(color: NodeColor, x: RbLink<K, V>) -> (r: (RbLink<K, V>, bool))
    requires
        rb_inv(x),
        sizes_ok(x),
        ordered(x),
        color == NodeColor::Red ==> is_black(x),
    ensures
        rb_inv(r.0),
        sizes_ok(r.0),
        ordered(r.0),
        map_of(r.0) == map_of(x),
        size_of(r.0) == size_of(x),
        r.1 ==> black_height(r.0) + 1 == bh_over(color, black_height(x)) && is_black(r.0),
        !r.1 ==> black_height(r.0) == bh_over(color, black_height(x)),
        is_red(r.0) ==> color == NodeColor::Red,
        r == rb_splice(color, x),
{
    if color == NodeColor::Black {
        if red_at(&x) {
            let n = x.unwrap();
            proof {
                lemma_parts(n);
            }
            let b = paint_black(n);
            proof {
                lemma_parts(b);
                assert(map_of(Some(b)) =~= map_of(x));
            }
            (Some(b), false)
        } else {
            (x, true)
        }
    } else {
        (x, false)
    }
}

/// Removes the smallest entry of a nonempty subtree, fixing up the colours on the way back up
/// as [`rb_del`] does; returns the new subtree, the removed entry, and whether the subtree lost
/// a black level.
#[verifier::spinoff_prover]
#[verifier::rlimit(30)]
fn rb_del_min<K: TreeKey, V>(b: Box<Node<K, V, RbAux>>) -> (r: (RbLink<K, V>, K, V, bool))
    requires
        rb_inv(Some(b)),
        sizes_ok(Some(b)),
        ordered(Some(b)),
        size_of(Some(b)) <= usize::MAX,
    ensures
        rb_inv(r.0),
        sizes_ok(r.0),
        ordered(r.0),
        is_min_key(map_of(Some(b)), r.1),
        map_of(Some(b))[r.1] == r.2,
        map_of(r.0) == map_of(Some(b)).remove(r.1),
        size_of(r.0) + 1 == size_of(Some(b)),
        r.3 ==> black_height(r.0) + 1 == black_height(Some(b)) && is_black(r.0),
        !r.3 ==> black_height(r.0) == black_height(Some(b)),
        is_red(r.0) ==> is_red(Some(b)),
        r == rb_pop_min(b),
    decreases b,
{
    proof {
        lemma_parts(b);
        lemma_map_finite_size(Some(b));
        assert(map_of(Some(b)).dom().contains(b.key));
    }
    let Node { key: k, value: v, aux, left, right } = *b;
    match left {
        None => {
            let (x, short) = splice_out(aux.color, right);
            proof {
                assert(map_of(x) =~= map_of(Some(b)).remove(k));
            }
            (x, k, v, short)
        },
        Some(ln) => {
            proof {
                lemma_parts(ln);
                assert(map_of(Some(ln)).dom().contains(ln.key));
            }
            let (nl, mk_, mv, short) = rb_del_min(ln);
            proof {
                assert(all_below(map_of(nl), k));
                assert(map_of(Some(b)).dom().contains(mk_));
            }
            let (n, s2) = if short {
                fix_left(aux.color, k, v, nl, right)
            } else {
                (mk(aux.color, k, v, nl, right), false)
            };
            proof {
                assert(map_of(Some(n)) =~= map_of(Some(b)).remove(mk_));
                assert forall|j: K| #[trigger] map_of(Some(b)).dom().contains(j) implies mk_.rank()
                    <= j.rank() by {
                    if map_of(right).dom().contains(j) {
                        assert(map_of(Some(ln)).dom().contains(mk_));
                    }
                }
            }
            (Some(n), mk_, mv, s2)
        },
    }
}

/// Removes a node with two children: its successor, the smallest entry on its right, is
/// removed there and takes the node's place and colour; the right side is fixed up if it lost
/// a black level.
fn del_two_children<K: TreeKey, V>(color: NodeColor, k: &K, left: RbLink<K, V>, right: RbLink<
    K,
    V,
>) -> (r: (Box<Node<K, V, RbAux>>, bool))
    requires
        left is Some,
        right is Some,
        rb_inv(left),
        rb_inv(right),
        black_height(left) == black_height(right),
        color == NodeColor::Red ==> is_black(left) && is_black(right),
        sizes_ok(left),
        sizes_ok(right),
        ordered(left),
        ordered(right),
        all_below(map_of(left), *k),
        all_above(map_of(right), *k),
        size_of(left) + size_of(right) + 1 <= usize::MAX,
    ensures
        rb_inv(Some(r.0)),
        sizes_ok(Some(r.0)),
        ordered(Some(r.0)),
        map_of(Some(r.0)) == map_of(left).union_prefer_right(map_of(right)),
        size_of(Some(r.0)) == size_of(left) + size_of(right),
        r.1 ==> black_height(Some(r.0)) + 1 == bh_over(color, black_height(right)) && is_black(
            Some(r.0),
        ),
        !r.1 ==> black_height(Some(r.0)) == bh_over(color, black_height(right)),
        is_red(Some(r.0)) ==> color == NodeColor::Red,
        r == rb_two_children(color, left, right->0),
{
    let rn = right.unwrap();
    proof {
        lemma_parts(rn);
        lemma_map_finite_size(right);
    }
    let (nr, sk, sv, short) = rb_del_min(rn);
    proof {
        assert(map_of(Some(rn)).dom().contains(sk));
        assert forall|j: K| #[trigger] map_of(nr).dom().contains(j) implies j.rank() > sk.rank() by {
            if j.rank() == sk.rank() {
                K::lemma_rank_injective(j, sk);
            }
        }
        assert(all_below(map_of(left), sk));
    }
    let (n, s2) = if short {
        fix_right(color, sk, sv, left, nr)
    } else {
        (mk(color, sk, sv, left, nr), false)
    };
    proof {
        assert(map_of(Some(n)) =~= map_of(left).union_prefer_right(map_of(right)));
    }
    (n, s2)
}

/// Removes `key` from a subtree as the textbook algorithm does: a node with at most one child
/// is replaced by that child; a node with two children takes the entry of its successor (the
/// smallest key on its right), which is removed in its place. Where a black node left, the
/// missing black level is fixed up on the way back up (see [`fix_left`]). The flag says whether
/// the subtree still lacks a black level.
#[verifier::rlimit(100)]
#[verifier::spinoff_prover]
fn rb_del<K: TreeKey, V>(t: RbLink<K, V>, key: &K) -> (r: (RbLink<K, V>, Option<V>, bool))
    requires
        rb_inv(t),
        sizes_ok(t),
        ordered(t),
        size_of(t) <= usize::MAX,
    ensures
        rb_inv(r.0),
        sizes_ok(r.0),
        ordered(r.0),
        map_of(r.0) == map_of(t).remove(*key),
        r.1 == (if map_of(t).dom().contains(*key) {
            Some(map_of(t)[*key])
        } else {
            None::<V>
        }),
        size_of(r.0) + (if r.1 is Some {
            1int
        } else {
            0int
        }) == size_of(t),
        r.2 ==> black_height(r.0) + 1 == black_height(t) && is_black(r.0),
        !r.2 ==> black_height(r.0) == black_height(t),
        is_red(r.0) ==> is_red(t),
        (r.0, r.2) == rb_drop(t, *key),
    decreases t,
{
    match t {
        None => {
            proof {
                assert(map_of(t) =~= map_of(t).remove(*key));
            }
            (None, None, false)
        },
        Some(b) => {
            proof {
                lemma_parts(b);
                lemma_map_finite_size(t);
                assert(map_of(t).dom().contains(b.key));
            }
            let Node { key: k, value: v, aux, left, right } = *b;
            match key.compare(&k) {
                KeyOrder::Less => {
                    let (nl, old, short) = rb_del(left, key);
                    proof {
                        assert(all_below(map_of(nl), k));
                    }
                    let (n, s2) = if short {
                        fix_left(aux.color, k, v, nl, right)
                    } else {
                        (mk(aux.color, k, v, nl, right), false)
                    };
                    proof {
                        assert(map_of(Some(n)) =~= map_of(t).remove(*key));
                    }
                    (Some(n), old, s2)
                },
                KeyOrder::Greater => {
                    let (nr, old, short) = rb_del(right, key);
                    proof {
                        assert(all_above(map_of(nr), k));
                    }
                    let (n, s2) = if short {
                        fix_right(aux.color, k, v, left, nr)
                    } else {
                        (mk(aux.color, k, v, left, nr), false)
                    };
                    proof {
                        assert(map_of(Some(n)) =~= map_of(t).remove(*key));
                    }
                    (Some(n), old, s2)
                },
                KeyOrder::Equal => {
                    if left.is_none() {
                        let (x, short) = splice_out(aux.color, right);
                        proof {
                            assert(map_of(x) =~= map_of(t).remove(*key));
                        }
                        (x, Some(v), short)
                    } else if right.is_none() {
                        let (x, short) = splice_out(aux.color, left);
                        proof {
                            assert(map_of(x) =~= map_of(t).remove(*key));
                        }
                        (x, Some(v), short)
                    } else {
                        let (n, s2) = del_two_children(aux.color, &k, left, right);
                        proof {
                            assert(map_of(Some(n)) =~= map_of(t).remove(*key));
                        }
                        (Some(n), Some(v), s2)
                    }
                },
            }
        },
    }
}

impl<K: TreeKey, V> BinTree<K, V, RbAux> {
    /// Adds `key -> value`, or replaces the value of an equal key; returns the replaced value.
    pub fn rb_insert(&mut self, key: K, value: V) -> (r: Option<V>)
        requires
            old(self).wf(),
            old(self)@.len() < usize::MAX,
        ensures
            final(self).wf(),
            final(self).link() == rb_inserted(old(self).link(), key, value),
            final(self)@ == old(self)@.insert(key, value),
            r == (if old(self)@.dom().contains(key) {
                Some(old(self)@[key])
            } else {
                None::<V>
            }),
    {
        proof {
            self.lemma_inv();
        }
        let root = self.root.take();
        let (n, r) = rb_ins(root, key, value);
        let mut n = n;
        n.aux.color = NodeColor::Black;
        proof {
            assert(rb_inv(Some(n)));
        }
        self.root = Some(n);
        if r.is_none() {
            self.len = self.len + 1;
        }
        r
    }

    /// Removes `key`; returns its value if it was present. A missing key leaves the tree as it
    /// is.
    pub fn rb_remove(&mut self, key: &K) -> (r: Option<V>)
        requires
            old(self).wf(),
        ensures
            final(self).wf(),
            final(self)@ == old(self)@.remove(*key),
            r == (if old(self)@.dom().contains(*key) {
                Some(old(self)@[*key])
            } else {
                None::<V>
            }),
            !old(self)@.dom().contains(*key) ==> final(self).link() == old(self).link(),
            final(self).link() == rb_removed(old(self).link(), *key),
    {
        proof {
            self.lemma_inv();
        }
        if !self.contains_key(key) {
            proof {
                assert(old(self)@ =~= old(self)@.remove(*key));
            }
            return None;
        }
        let root = self.root.take();
        let (rest, r, _) = rb_del(root, key);
        let rest = match rest {
            None => None,
            Some(n) => {
                let mut n = n;
                n.aux.color = NodeColor::Black;
                proof {
                    assert(rb_inv(Some(n)));
                }
                Some(n)
            },
        };
        self.root = rest;
        self.len = self.len - 1;
        r
    }

    /// Number of entries, read from the size stored at the root.
    pub fn rb_size(&self) -> (r: usize)
        requires
            self.wf(),
        ensures
            r == self@.len(),
    {
        proof {
            self.lemma_inv();
        }
        size_at(&self.root)
    }

    /// The position of the entry of the given rank (0 is the smallest key), by descending
    /// with the stored subtree sizes.
    pub fn rb_select<'a>(&'a self, rank: usize) -> (r: Option<NodeRef<'a, K, V, RbAux>>)
        requires
            self.wf(),
        ensures
            r is Some <==> rank < self@.len(),
            r matches Some(p) ==> p.wf() && p.tree_map() == self@ && *p.root == self.link() && (
            p.node.key, p.node.value) == seq_of(self.link())[rank as int],
    {
        proof {
            self.lemma_inv();
        }
        let mut cur: &'a RbLink<K, V> = &self.root;
        let mut k: usize = rank;
        let ghost mut off: int = 0;
        loop
            invariant
                self.wf(),
                sizes_ok(*cur),
                ordered(*cur),
                seq_of(*cur).len() == size_of(*cur),
                seq_of(self.root).len() == size_of(self.root),
                seq_of(self.root).len() == self@.len(),
                forall|s: Node<K, V, RbAux>| is_subtree(s, *cur) ==> is_subtree(s, self.root),
                off + k == rank,
                0 <= off,
                off + seq_of(*cur).len() <= seq_of(self.root).len(),
                forall|i: int| 0 <= i < seq_of(*cur).len() ==> seq_of(self.root)[off + i] == #[trigger] seq_of(*cur)[i],
                (rank < seq_of(self.root).len()) == (k < seq_of(*cur).len()),
            decreases *cur,
        {
            match cur {
                None => {
                    return None;
                },
                Some(n) => {
                    proof {
                        lemma_parts(*n);
                        lemma_map_finite_size(n.left);
                        lemma_map_finite_size(n.right);
                        assert(is_subtree(**n, *cur));
                        lemma_children_are_subtrees(**n, *cur);
                        assert(seq_of(*cur) == seq_of(n.left) + seq![(n.key, n.value)] + seq_of(n.right));
                    }
                    proof {
                        assert forall|s: Node<K, V, RbAux>| is_subtree(s, n.left) implies is_subtree(s, self.root) by {
                            assert(is_subtree(s, *cur));
                        }
                        assert forall|s: Node<K, V, RbAux>| is_subtree(s, n.right) implies is_subtree(s, self.root) by {
                            assert(is_subtree(s, *cur));
                        }
                    }
                    let ls = size_at(&n.left);
                    if k < ls {
                        proof {
                            assert forall|i: int| 0 <= i < seq_of(n.left).len() implies seq_of(self.root)[off + i]
                                == #[trigger] seq_of(n.left)[i] by {
                                assert(seq_of(*cur)[i] == seq_of(n.left)[i]);
                            }
                        }
                        cur = &n.left;
                    } else if k == ls {
                        proof {
                            assert(seq_of(*cur)[ls as int] == (n.key, n.value));
                            assert(is_subtree(**n, self.root));
                            crate::trees::node::lemma_subtree_key(**n, self.root);
                        }
                        return Some(NodeRef::at(&self.root, &**n));
                    } else {
                        proof {
                            assert forall|i: int| 0 <= i < seq_of(n.right).len() implies seq_of(self.root)[off + ls + 1 + i]
                                == #[trigger] seq_of(n.right)[i] by {
                                assert(seq_of(*cur)[ls + 1 + i] == seq_of(n.right)[i]);
                            }
                            off = off + ls + 1;
                        }
                        k = k - ls - 1;
                        cur = &n.right;
                    }
                },
            }
        }
    }
}

/// Size stored at the root of the subtree at slot `i` (0 when empty).
fn size_slot<K, V>(arena: &Arena<K, V, RbAux>, i: Option<usize>, Ghost(t): Ghost<RbLink<K, V>>) -> (s: usize)
    requires
        sizes_ok(t),
        holds(arena.nodes@, i, t),
    ensures
        s == size_of(t),
{
    match i {
        None => 0,
        Some(x) => {
            proof {
                assert(Box::new(*t->0) == t->0);
                lemma_holds_child(arena.nodes@, x, *t->0);
            }
            arena.node(x).aux.size
        },
    }
}

impl<K: TreeKey, V> ArenaTree<K, V, RbAux> {
    /// Number of entries, read from the size stored at the root.
    pub(crate) fn rb_size(&self) -> (r: usize)
        requires
            self.wf(),
        ensures
            r == self@.len(),
    {
        proof {
            self.lemma_inv();
        }
        size_slot(&self.arena, self.root, Ghost(self.shape@))
    }

    /// The position of the entry of the given rank (0 is the smallest key), by descending
    /// with the stored subtree sizes.
    pub(crate) fn rb_select<'a>(&'a self, rank: usize) -> (r: Option<ARef<'a, K, V, RbAux>>)
        requires
            self.wf(),
        ensures
            r is Some <==> rank < self@.len(),
            r matches Some(p) ==> p.wf() && p.tree_map() == self@ && p.root_t@ == self.link() && (
            p.node@.key, p.node@.value) == seq_of(self.link())[rank as int],
    {
        proof {
            self.lemma_inv();
        }
        let ghost root = self.shape@;
        let mut ci = self.root;
        let ghost mut cur = root;
        let mut k: usize = rank;
        let ghost mut off: int = 0;
        loop
            invariant
                self.wf(),
                root == self.shape@,
                holds(self.arena.nodes@, ci, cur),
                sizes_ok(cur),
                ordered(cur),
                seq_of(cur).len() == size_of(cur),
                seq_of(root).len() == size_of(root),
                seq_of(root).len() == self@.len(),
                forall|s: Node<K, V, RbAux>| is_subtree(s, cur) ==> is_subtree(s, root),
                off + k == rank,
                0 <= off,
                off + seq_of(cur).len() <= seq_of(root).len(),
                forall|i: int| 0 <= i < seq_of(cur).len() ==> seq_of(root)[off + i] == #[trigger] seq_of(cur)[i],
                (rank < seq_of(root).len()) == (k < seq_of(cur).len()),
            decreases cur,
        {
            match ci {
                None => {
                    return None;
                },
                Some(x) => {
                    let ghost n = cur->0;
                    proof {
                        lemma_parts(n);
                        lemma_map_finite_size(n.left);
                        lemma_map_finite_size(n.right);
                        assert(is_subtree(*n, cur));
                        lemma_children_are_subtrees(*n, cur);
                        assert(seq_of(cur) == seq_of(n.left) + seq![(n.key, n.value)] + seq_of(n.right));
                        assert(Box::new(*n) == n);
                        lemma_holds_child(self.arena.nodes@, x, *n);
                    }
                    proof {
                        assert forall|s: Node<K, V, RbAux>| is_subtree(s, n.left) implies is_subtree(s, root) by {
                            assert(is_subtree(s, cur));
                        }
                        assert forall|s: Node<K, V, RbAux>| is_subtree(s, n.right) implies is_subtree(s, root) by {
                            assert(is_subtree(s, cur));
                        }
                    }
                    let an = self.arena.node(x);
                    let ls = size_slot(&self.arena, an.left, Ghost(n.left));
                    if k < ls {
                        proof {
                            assert forall|i: int| 0 <= i < seq_of(n.left).len() implies seq_of(root)[off + i]
                                == #[trigger] seq_of(n.left)[i] by {
                                assert(seq_of(cur)[i] == seq_of(n.left)[i]);
                            }
                        }
                        ci = an.left;
                        proof {
                            cur = n.left;
                        }
                    } else if k == ls {
                        proof {
                            assert(seq_of(cur)[ls as int] == (n.key, n.value));
                            assert(is_subtree(*n, root));
                            crate::trees::node::lemma_subtree_key(*n, root);
                        }
                        return Some(ARef::at(&self.arena, self.root, x, Ghost(root), Ghost(*n)));
                    } else {
                        proof {
                            assert forall|i: int| 0 <= i < seq_of(n.right).len() implies seq_of(root)[off + ls + 1 + i]
                                == #[trigger] seq_of(n.right)[i] by {
                                assert(seq_of(cur)[ls + 1 + i] == seq_of(n.right)[i]);
                            }
                            off = off + ls + 1;
                        }
                        k = k - ls - 1;
                        ci = an.right;
                        proof {
                            cur = n.right;
                        }
                    }
                },
            }
        }
    }
}

/// The rule holds of every subtree of a tree that keeps it.
pub proof fn lemma_rb_inv_subtree<K, V>(sub: Node<K, V, RbAux>, t: Option<Box<Node<K, V, RbAux>>>)
    requires
        is_subtree(sub, t),
        rb_inv(t),
    ensures
        rb_inv(Some(Box::new(sub))),
    decreases t,
{
    let n = t.unwrap();
    if *n == sub {
    } else if is_subtree(sub, n.left) {
        lemma_rb_inv_subtree(sub, n.left);
    } else {
        lemma_rb_inv_subtree(sub, n.right);
    }
}

} // verus!

