//! The splay tree: a binary search tree that moves each accessed key to the root by zig,
//! zig-zig and zig-zag rotations.
use vstd::prelude::*;

use crate::key::{KeyOrder, TreeKey};
use crate::trees::avl_tree::engine::{all_above, all_below};
use crate::trees::bin_tree::BinTree;
use crate::trees::node_ref::NodeRef;
use crate::trees::node::{
    is_next_key, is_prev_key, lemma_map_facts, lemma_map_finite_size, map_of, ordered,
    size_of, Node,
};

verus! {

broadcast use vstd::map_lib::group_map_union;

/// `rk` is the key a splay for `key` brings to the root of a tree with entries `m`: `key`
/// itself when present, otherwise the key next to it on one side (the last key a search for
/// `key` visits).
pub open spec fn splay_root_key<K: TreeKey, V>(m: Map<K, V>, key: K, rk: K) -> bool {
    &&& m.dom().contains(key) ==> rk == key
    &&& !m.dom().contains(key) ==> is_prev_key(m, key, rk) || is_next_key(m, key, rk)
}

/// The two subtrees of an ordered node are ordered, lie on either side of its key and hold
/// entries of the node.
proof fn lemma_split<K: TreeKey, V>(n: Box<Node<K, V, ()>>)
    requires
        ordered(Some(n)),
    ensures
        ordered(n.left),
        ordered(n.right),
        all_below(map_of(n.left), n.key),
        all_above(map_of(n.right), n.key),
        forall|j: K| #[trigger] map_of(n.left).dom().contains(j) ==> map_of(Some(n)).dom().contains(j),
        forall|j: K| #[trigger] map_of(n.right).dom().contains(j) ==> map_of(Some(n)).dom().contains(j),
{
    lemma_map_facts(n);
}

/// The node over two subtrees.
pub open spec fn sp_node<K, V>(
    key: K,
    value: V,
    left: Option<Box<Node<K, V, ()>>>,
    right: Option<Box<Node<K, V, ()>>>,
) -> Box<Node<K, V, ()>> {
    Box::new(Node { key, value, aux: (), left, right })
}

/// The zig-zig or zig-zag rotation at `g` whose child on the side of `key` is `c`, itself
/// with the node to lift as its child on the side of `key`.
pub open spec fn sp_pair_left<K: TreeKey, V>(
    key: K,
    gk: K,
    gv: V,
    c: Box<Node<K, V, ()>>,
    gr: Option<Box<Node<K, V, ()>>>,
) -> Box<Node<K, V, ()>> {
    if key.rank() < c.key.rank() {
        let x = c.left->0;
        sp_node(x.key, x.value, x.left, Some(sp_node(c.key, c.value, x.right, Some(sp_node(gk, gv, c.right, gr)))))
    } else {
        let x = c.right->0;
        sp_node(x.key, x.value, Some(sp_node(c.key, c.value, c.left, x.left)), Some(sp_node(gk, gv, x.right, gr)))
    }
}

/// The mirror image of `sp_pair_left`.
pub open spec fn sp_pair_right<K: TreeKey, V>(
    key: K,
    gk: K,
    gv: V,
    gl: Option<Box<Node<K, V, ()>>>,
    c: Box<Node<K, V, ()>>,
) -> Box<Node<K, V, ()>> {
    if key.rank() > c.key.rank() {
        let x = c.right->0;
        sp_node(x.key, x.value, Some(sp_node(c.key, c.value, Some(sp_node(gk, gv, gl, c.left)), x.left)), x.right)
    } else {
        let x = c.left->0;
        sp_node(x.key, x.value, Some(sp_node(gk, gv, gl, x.left)), Some(sp_node(c.key, c.value, x.right, c.right)))
    }
}

/// The splay steps below the root of `b` for `key` (see `splay_rec`): the subtree, and whether
/// one rotation is left for the level above.
pub open spec fn splay_steps<K: TreeKey, V>(b: Box<Node<K, V, ()>>, key: K) -> (Box<Node<K, V, ()>>, bool)
    decreases b,
{
    if key.rank() < b.key.rank() {
        match b.left {
            None => (sp_node(b.key, b.value, None, b.right), false),
            Some(c0) => {
                let s = splay_steps(c0, key);
                if !s.1 {
                    (sp_node(b.key, b.value, Some(s.0), b.right), true)
                } else {
                    (sp_pair_left(key, b.key, b.value, s.0, b.right), false)
                }
            },
        }
    } else if key.rank() > b.key.rank() {
        match b.right {
            None => (sp_node(b.key, b.value, b.left, None), false),
            Some(c0) => {
                let s = splay_steps(c0, key);
                if !s.1 {
                    (sp_node(b.key, b.value, b.left, Some(s.0)), true)
                } else {
                    (sp_pair_right(key, b.key, b.value, b.left, s.0), false)
                }
            },
        }
    } else {
        (sp_node(b.key, b.value, b.left, b.right), false)
    }
}

/// The single rotation at the root `t` that lifts its child on the side of `key`.
pub open spec fn sp_zig_to<K: TreeKey, V>(key: K, t: Box<Node<K, V, ()>>) -> Box<Node<K, V, ()>> {
    if key.rank() < t.key.rank() {
        let x = t.left->0;
        sp_node(x.key, x.value, x.left, Some(sp_node(t.key, t.value, x.right, t.right)))
    } else {
        let x = t.right->0;
        sp_node(x.key, x.value, Some(sp_node(t.key, t.value, t.left, x.left)), x.right)
    }
}

/// The subtree that splaying `key` in `b` gives: the splay steps, then a single rotation at the
/// root when one is left.
pub open spec fn splayed<K: TreeKey, V>(b: Box<Node<K, V, ()>>, key: K) -> Box<Node<K, V, ()>> {
    let s = splay_steps(b, key);
    if s.1 {
        sp_zig_to(key, s.0)
    } else {
        s.0
    }
}

/// The splay steps of inserting `key -> value` below `t` (see `splay_ins_rec`): a new leaf
/// where the search ends (or the value replaced at an equal key), lifted as `splay_steps`
/// lifts a found node; and whether one rotation is left for the level above.
pub open spec fn splay_ins_steps<K: TreeKey, V>(
    t: Option<Box<Node<K, V, ()>>>,
    key: K,
    value: V,
) -> (Box<Node<K, V, ()>>, bool)
    decreases t,
{
    match t {
        None => (sp_node(key, value, None, None), false),
        Some(b) => if key.rank() < b.key.rank() {
            match b.left {
                None => (sp_node(b.key, b.value, Some(sp_node(key, value, None, None)), b.right), true),
                Some(c0) => {
                    let s = splay_ins_steps(Some(c0), key, value);
                    if !s.1 {
                        (sp_node(b.key, b.value, Some(s.0), b.right), true)
                    } else {
                        (sp_pair_left(key, b.key, b.value, s.0, b.right), false)
                    }
                },
            }
        } else if key.rank() > b.key.rank() {
            match b.right {
                None => (sp_node(b.key, b.value, b.left, Some(sp_node(key, value, None, None))), true),
                Some(c0) => {
                    let s = splay_ins_steps(Some(c0), key, value);
                    if !s.1 {
                        (sp_node(b.key, b.value, b.left, Some(s.0)), true)
                    } else {
                        (sp_pair_right(key, b.key, b.value, b.left, s.0), false)
                    }
                },
            }
        } else {
            (sp_node(b.key, value, b.left, b.right), false)
        },
    }
}

/// The tree that inserting `key -> value` gives: the insertion's splay steps, then a single
/// rotation at the root when one is left.
pub open spec fn splay_inserted<K: TreeKey, V>(
    t: Option<Box<Node<K, V, ()>>>,
    key: K,
    value: V,
) -> Box<Node<K, V, ()>> {
    let s = splay_ins_steps(t, key, value);
    if s.1 {
        sp_zig_to(key, s.0)
    } else {
        s.0
    }
}

/// The tree after splaying `key` (nothing when it is empty).
pub open spec fn splay_at<K: TreeKey, V>(t: Option<Box<Node<K, V, ()>>>, key: K) -> Option<
    Box<Node<K, V, ()>>,
> {
    match t {
        None => None,
        Some(b) => Some(splayed(b, key)),
    }
}

/// The tree that removing `key` gives: `key` splayed to the root, then its left subtree (when
/// there is one) splayed for `key` too, which brings its largest key to its root, with the
/// right subtree hung on its right; a missing key leaves the tree as it is.
pub open spec fn splay_removed<K: TreeKey, V>(t: Option<Box<Node<K, V, ()>>>, key: K) -> Option<
    Box<Node<K, V, ()>>,
> {
    if !map_of(t).dom().contains(key) {
        t
    } else {
        match t {
            None => None,
            Some(b) => {
                let s = splayed(b, key);
                match s.left {
                    None => s.right,
                    Some(lb) => {
                        let m = splayed(lb, key);
                        Some(sp_node(m.key, m.value, m.left, s.right))
                    },
                }
            },
        }
    }
}

/// A node over two ordered subtrees separated by its key.
fn join<K: TreeKey, V>(
    key: K,
    value: V,
    left: Option<Box<Node<K, V, ()>>>,
    right: Option<Box<Node<K, V, ()>>>,
) -> (r: Box<Node<K, V, ()>>)
    requires
        ordered(left),
        ordered(right),
        all_below(map_of(left), key),
        all_above(map_of(right), key),
    ensures
        ordered(Some(r)),
        r.key == key,
        r.value == value,
        r.left == left,
        r.right == right,
        map_of(Some(r)) == map_of(left).union_prefer_right(map_of(right)).insert(key, value),
        size_of(Some(r)) == size_of(left) + size_of(right) + 1,
        r == sp_node(key, value, left, right),
{
    Box::new(Node { key, value, aux: (), left, right })
}

/// What a search ends at in the left subtree it also ends at in the whole tree: the search
/// goes left of the root.
proof fn lemma_lift_left<K: TreeKey, V>(n: Box<Node<K, V, ()>>, key: K, rk: K)
    requires
        ordered(Some(n)),
        key.rank() < n.key.rank(),
        splay_root_key(map_of(n.left), key, rk),
        map_of(n.left).dom().contains(rk),
    ensures
        splay_root_key(map_of(Some(n)), key, rk),
        map_of(Some(n)).dom().contains(rk),
        map_of(Some(n))[rk] == map_of(n.left)[rk],
{
    lemma_map_facts(n);
    lemma_split(n);
    let m = map_of(Some(n));
    if !m.dom().contains(key) {
        if is_next_key(map_of(n.left), key, rk) {
            assert forall|j: K| #[trigger] m.dom().contains(j) && j.rank() > key.rank() implies j.rank()
                >= rk.rank() by {
                if !map_of(n.left).dom().contains(j) {
                    assert(rk.rank() < n.key.rank());
                }
            }
        } else {
            assert forall|j: K| #[trigger] m.dom().contains(j) && j.rank() < key.rank() implies j.rank()
                <= rk.rank() by {
                assert(map_of(n.left).dom().contains(j));
            }
        }
    } else {
        assert(map_of(n.left).dom().contains(key)) by {
            if key != n.key && !map_of(n.left).dom().contains(key) {
                assert(map_of(n.right).dom().contains(key));
            }
        }
    }
}

/// The mirror image of [`lemma_lift_left`].
proof fn lemma_lift_right<K: TreeKey, V>(n: Box<Node<K, V, ()>>, key: K, rk: K)
    requires
        ordered(Some(n)),
        key.rank() > n.key.rank(),
        splay_root_key(map_of(n.right), key, rk),
        map_of(n.right).dom().contains(rk),
    ensures
        splay_root_key(map_of(Some(n)), key, rk),
        map_of(Some(n)).dom().contains(rk),
        map_of(Some(n))[rk] == map_of(n.right)[rk],
{
    lemma_map_facts(n);
    lemma_split(n);
    let m = map_of(Some(n));
    if !m.dom().contains(key) {
        if is_prev_key(map_of(n.right), key, rk) {
            assert forall|j: K| #[trigger] m.dom().contains(j) && j.rank() < key.rank() implies j.rank()
                <= rk.rank() by {
                if !map_of(n.right).dom().contains(j) {
                    assert(rk.rank() > n.key.rank());
                }
            }
        } else {
            assert forall|j: K| #[trigger] m.dom().contains(j) && j.rank() > key.rank() implies j.rank()
                >= rk.rank() by {
                assert(map_of(n.right).dom().contains(j));
            }
        }
    } else {
        assert(map_of(n.right).dom().contains(key)) by {
            if key != n.key && !map_of(n.right).dom().contains(key) {
                assert(map_of(n.left).dom().contains(key));
            }
        }
    }
}

/// A search that goes left of a root without a left subtree ends at the root.
proof fn lemma_stop_left<K: TreeKey, V>(n: Box<Node<K, V, ()>>, key: K)
    requires
        ordered(Some(n)),
        key.rank() < n.key.rank(),
        n.left is None,
    ensures
        splay_root_key(map_of(Some(n)), key, n.key),
{
    lemma_map_facts(n);
    lemma_split(n);
    assert(!map_of(Some(n)).dom().contains(key)) by {
        if map_of(Some(n)).dom().contains(key) {
            if key != n.key {
                assert(map_of(n.right).dom().contains(key));
            }
        }
    }
    assert forall|j: K| #[trigger] map_of(Some(n)).dom().contains(j) && j.rank() > key.rank() implies j.rank()
        >= n.key.rank() by {
        if j != n.key {
            assert(map_of(n.right).dom().contains(j));
        }
    }
}

/// A search that goes right of a root without a right subtree ends at the root.
proof fn lemma_stop_right<K: TreeKey, V>(n: Box<Node<K, V, ()>>, key: K)
    requires
        ordered(Some(n)),
        key.rank() > n.key.rank(),
        n.right is None,
    ensures
        splay_root_key(map_of(Some(n)), key, n.key),
{
    lemma_map_facts(n);
    lemma_split(n);
    assert(!map_of(Some(n)).dom().contains(key)) by {
        if map_of(Some(n)).dom().contains(key) {
            if key != n.key {
                assert(map_of(n.left).dom().contains(key));
            }
        }
    }
    assert forall|j: K| #[trigger] map_of(Some(n)).dom().contains(j) && j.rank() < key.rank() implies j.rank()
        <= n.key.rank() by {
        if j != n.key {
            assert(map_of(n.left).dom().contains(j));
        }
    }
}

/// The splay steps below the root of a subtree, paired from the node where a search for `key`
/// ends upward: each pair of steps is a zig-zig (the node and its parent on the same side) or a
/// zig-zag rotation. When that node lies at an even depth it ends at the root (flag false);
/// at an odd depth one step is left for the level above, and the node ends as the child, on
/// the side of `key`, of the unchanged root (flag true).
#[verifier::rlimit(80)]
fn splay_rec<K: TreeKey, V>(b: Box<Node<K, V, ()>>, key: &K) -> (r: (Box<Node<K, V, ()>>, bool))
    requires
        ordered(Some(b)),
    ensures
        ordered(Some(r.0)),
        map_of(Some(r.0)) == map_of(Some(b)),
        size_of(Some(r.0)) == size_of(Some(b)),
        !r.1 ==> splay_root_key(map_of(Some(b)), *key, r.0.key) && map_of(Some(b))[r.0.key]
            == r.0.value,
        r.1 ==> r.0.key == b.key && r.0.value == b.value && key.rank() != b.key.rank(),
        r.1 && key.rank() < b.key.rank() ==> r.0.right == b.right && r.0.left is Some
            && splay_root_key(map_of(Some(b)), *key, r.0.left->0.key) && map_of(Some(b))[r.0.left->0.key]
            == r.0.left->0.value,
        r.1 && key.rank() > b.key.rank() ==> r.0.left == b.left && r.0.right is Some
            && splay_root_key(map_of(Some(b)), *key, r.0.right->0.key) && map_of(
            Some(b),
        )[r.0.right->0.key] == r.0.right->0.value,
        r == splay_steps(b, *key),
    decreases b,
{
    proof {
        lemma_map_facts(b);
        lemma_split(b);
        lemma_map_finite_size(Some(b));
        assert(map_of(Some(b)).dom().contains(b.key));
    }
    let ghost ob = b;
    let Node { key: gk, value: gv, aux: _, left: gl, right: gr } = *b;
    match key.compare(&gk) {
        KeyOrder::Equal => {
            let r = join(gk, gv, gl, gr);
            proof {
                assert(map_of(Some(r)) =~= map_of(Some(ob)));
                                lemma_map_finite_size(Some(r));
            }
            (r, false)
        },
        KeyOrder::Less => {
            match gl {
                None => {
                    let r = join(gk, gv, None, gr);
                    proof {
                        lemma_stop_left(ob, *key);
                        assert(map_of(Some(r)) =~= map_of(Some(ob)));
                                lemma_map_finite_size(Some(r));
                    }
                    (r, false)
                },
                Some(c0) => {
                    let ghost oc = c0;
                    let (c, odd) = splay_rec(c0, key);
                    if !odd {
                        proof {
                            lemma_split(c);
                            lemma_map_facts(c);
                            assert(map_of(Some(c)).dom().contains(c.key));
                            lemma_lift_left(ob, *key, c.key);
                        }
                        let r = join(gk, gv, Some(c), gr);
                        proof {
                            assert(map_of(Some(r)) =~= map_of(Some(ob)));
                                lemma_map_finite_size(Some(r));
                        }
                        (r, true)
                    } else {
                        proof {
                            lemma_split(c);
                            lemma_map_facts(c);
                        }
                        let Node { key: pk, value: pv, aux: _, left: pl, right: pr } = *c;
                        match key.compare(&pk) {
                            KeyOrder::Less => {
                                let xn = pl.unwrap();
                                proof {
                                    lemma_split(xn);
                                    lemma_map_facts(xn);
                                    assert(map_of(Some(xn)).dom().contains(xn.key));
                                    assert(map_of(Some(c)).dom().contains(xn.key));
                                    assert(map_of(Some(oc)).dom().contains(xn.key));
                                    lemma_lift_left(ob, *key, xn.key);
                                    assert(all_below(map_of(pr), gk));
                                }
                                let Node { key: xk, value: xv, aux: _, left: xl, right: xr } = *xn;
                                let g2 = join(gk, gv, pr, gr);
                                proof {
                                    assert(all_above(map_of(Some(g2)), pk));
                                    assert(all_below(map_of(xr), pk));
                                }
                                let p2 = join(pk, pv, xr, Some(g2));
                                proof {
                                    assert(all_above(map_of(Some(p2)), xk));
                                }
                                let r = join(xk, xv, xl, Some(p2));
                                proof {
                                    assert(map_of(Some(r)) =~= map_of(Some(ob)));
                                lemma_map_finite_size(Some(r));
                                }
                                (r, false)
                            },
                            _ => {
                                let xn = pr.unwrap();
                                proof {
                                    lemma_split(xn);
                                    lemma_map_facts(xn);
                                    assert(map_of(Some(xn)).dom().contains(xn.key));
                                    assert(map_of(Some(c)).dom().contains(xn.key));
                                    assert(map_of(Some(oc)).dom().contains(xn.key));
                                    lemma_lift_left(ob, *key, xn.key);
                                }
                                let Node { key: xk, value: xv, aux: _, left: xl, right: xr } = *xn;
                                proof {
                                    assert(all_above(map_of(xl), pk));
                                    assert(all_below(map_of(xr), gk));
                                }
                                let p2 = join(pk, pv, pl, xl);
                                let g2 = join(gk, gv, xr, gr);
                                proof {
                                    assert(all_below(map_of(Some(p2)), xk));
                                    assert(all_above(map_of(Some(g2)), xk));
                                }
                                let r = join(xk, xv, Some(p2), Some(g2));
                                proof {
                                    assert(map_of(Some(r)) =~= map_of(Some(ob)));
                                lemma_map_finite_size(Some(r));
                                }
                                (r, false)
                            },
                        }
                    }
                },
            }
        },
        KeyOrder::Greater => {
            match gr {
                None => {
                    let r = join(gk, gv, gl, None);
                    proof {
                        lemma_stop_right(ob, *key);
                        assert(map_of(Some(r)) =~= map_of(Some(ob)));
                                lemma_map_finite_size(Some(r));
                    }
                    (r, false)
                },
                Some(c0) => {
                    let ghost oc = c0;
                    let (c, odd) = splay_rec(c0, key);
                    if !odd {
                        proof {
                            lemma_split(c);
                            lemma_map_facts(c);
                            assert(map_of(Some(c)).dom().contains(c.key));
                            lemma_lift_right(ob, *key, c.key);
                        }
                        let r = join(gk, gv, gl, Some(c));
                        proof {
                            assert(map_of(Some(r)) =~= map_of(Some(ob)));
                                lemma_map_finite_size(Some(r));
                        }
                        (r, true)
                    } else {
                        proof {
                            lemma_split(c);
                            lemma_map_facts(c);
                        }
                        let Node { key: pk, value: pv, aux: _, left: pl, right: pr } = *c;
                        match key.compare(&pk) {
                            KeyOrder::Greater => {
                                let xn = pr.unwrap();
                                proof {
                                    lemma_split(xn);
                                    lemma_map_facts(xn);
                                    assert(map_of(Some(xn)).dom().contains(xn.key));
                                    assert(map_of(Some(c)).dom().contains(xn.key));
                                    assert(map_of(Some(oc)).dom().contains(xn.key));
                                    lemma_lift_right(ob, *key, xn.key);
                                    assert(all_above(map_of(pl), gk));
                                }
                                let Node { key: xk, value: xv, aux: _, left: xl, right: xr } = *xn;
                                let g2 = join(gk, gv, gl, pl);
                                proof {
                                    assert(all_below(map_of(Some(g2)), pk));
                                    assert(all_above(map_of(xl), pk));
                                }
                                let p2 = join(pk, pv, Some(g2), xl);
                                proof {
                                    assert(all_below(map_of(Some(p2)), xk));
                                }
                                let r = join(xk, xv, Some(p2), xr);
                                proof {
                                    assert(map_of(Some(r)) =~= map_of(Some(ob)));
                                lemma_map_finite_size(Some(r));
                                }
                                (r, false)
                            },
                            _ => {
                                let xn = pl.unwrap();
                                proof {
                                    lemma_split(xn);
                                    lemma_map_facts(xn);
                                    assert(map_of(Some(xn)).dom().contains(xn.key));
                                    assert(map_of(Some(c)).dom().contains(xn.key));
                                    assert(map_of(Some(oc)).dom().contains(xn.key));
                                    lemma_lift_right(ob, *key, xn.key);
                                }
                                let Node { key: xk, value: xv, aux: _, left: xl, right: xr } = *xn;
                                proof {
                                    assert(all_below(map_of(xr), pk));
                                    assert(all_above(map_of(xl), gk));
                                }
                                let g2 = join(gk, gv, gl, xl);
                                let p2 = join(pk, pv, xr, pr);
                                proof {
                                    assert(all_below(map_of(Some(g2)), xk));
                                    assert(all_above(map_of(Some(p2)), xk));
                                }
                                let r = join(xk, xv, Some(g2), Some(p2));
                                proof {
                                    assert(map_of(Some(r)) =~= map_of(Some(ob)));
                                lemma_map_finite_size(Some(r));
                                }
                                (r, false)
                            },
                        }
                    }
                },
            }
        },
    }
}

/// Splays the node where a search for `key` ends in a non-empty subtree, bottom-up: pairs of
/// zig-zig and zig-zag rotations from that node upward, and a single rotation at the root when
/// one step is left. The result holds the same entries and has that node at its root.
#[verifier::rlimit(40)]
pub fn splay_node<K: TreeKey, V>(b: Box<Node<K, V, ()>>, key: &K) -> (r: Box<Node<K, V, ()>>)
    requires
        ordered(Some(b)),
    ensures
        ordered(Some(r)),
        map_of(Some(r)) == map_of(Some(b)),
        size_of(Some(r)) == size_of(Some(b)),
        splay_root_key(map_of(Some(b)), *key, r.key),
        map_of(Some(b))[r.key] == r.value,
        r == splayed(b, *key),
{
    let (t, odd) = splay_rec(b, key);
    if !odd {
        return t;
    }
    proof {
        lemma_split(t);
        lemma_map_facts(t);
        lemma_map_finite_size(Some(t));
    }
    let ghost ot = t;
    let Node { key: rk, value: rv, aux: _, left: rl, right: rr } = *t;
    match key.compare(&rk) {
        KeyOrder::Less => {
            let xn = rl.unwrap();
            proof {
                lemma_split(xn);
                lemma_map_facts(xn);
            }
            let Node { key: xk, value: xv, aux: _, left: xl, right: xr } = *xn;
            proof {
                assert(all_below(map_of(xr), rk));
            }
            let g2 = join(rk, rv, xr, rr);
            proof {
                assert(all_above(map_of(Some(g2)), xk));
            }
            let r = join(xk, xv, xl, Some(g2));
            proof {
                assert(map_of(Some(r)) =~= map_of(Some(ot)));
                lemma_map_finite_size(Some(r));
            }
            r
        },
        _ => {
            let xn = rr.unwrap();
            proof {
                lemma_split(xn);
                lemma_map_facts(xn);
            }
            let Node { key: xk, value: xv, aux: _, left: xl, right: xr } = *xn;
            proof {
                assert(all_above(map_of(xl), rk));
            }
            let g2 = join(rk, rv, rl, xl);
            proof {
                assert(all_below(map_of(Some(g2)), xk));
            }
            let r = join(xk, xv, Some(g2), xr);
            proof {
                assert(map_of(Some(r)) =~= map_of(Some(ot)));
                lemma_map_finite_size(Some(r));
            }
            r
        },
    }
}

/// One rotation at the root that lifts its left child (`left`) or its right child into its
/// place.
fn zig<K: TreeKey, V>(t: Box<Node<K, V, ()>>, left: bool) -> (r: Box<Node<K, V, ()>>)
    requires
        ordered(Some(t)),
        left ==> t.left is Some,
        !left ==> t.right is Some,
    ensures
        ordered(Some(r)),
        map_of(Some(r)) == map_of(Some(t)),
        left ==> r.key == t.left->0.key && r.value == t.left->0.value,
        !left ==> r.key == t.right->0.key && r.value == t.right->0.value,
        left ==> r == sp_node(t.left->0.key, t.left->0.value, t.left->0.left, Some(sp_node(t.key, t.value, t.left->0.right, t.right))),
        !left ==> r == sp_node(t.right->0.key, t.right->0.value, Some(sp_node(t.key, t.value, t.left, t.right->0.left)), t.right->0.right),
{
    proof {
        lemma_split(t);
        lemma_map_facts(t);
    }
    let ghost ot = t;
    let Node { key: rk, value: rv, aux: _, left: rl, right: rr } = *t;
    if left {
        let xn = rl.unwrap();
        proof {
            lemma_split(xn);
            lemma_map_facts(xn);
        }
        let Node { key: xk, value: xv, aux: _, left: xl, right: xr } = *xn;
        proof {
            assert(all_below(map_of(xr), rk));
        }
        let g2 = join(rk, rv, xr, rr);
        proof {
            assert(all_above(map_of(Some(g2)), xk));
        }
        let r = join(xk, xv, xl, Some(g2));
        proof {
            assert(map_of(Some(r)) =~= map_of(Some(ot)));
        }
        r
    } else {
        let xn = rr.unwrap();
        proof {
            lemma_split(xn);
            lemma_map_facts(xn);
        }
        let Node { key: xk, value: xv, aux: _, left: xl, right: xr } = *xn;
        proof {
            assert(all_above(map_of(xl), rk));
        }
        let g2 = join(rk, rv, rl, xl);
        proof {
            assert(all_below(map_of(Some(g2)), xk));
        }
        let r = join(xk, xv, Some(g2), xr);
        proof {
            assert(map_of(Some(r)) =~= map_of(Some(ot)));
        }
        r
    }
}

/// Inserts `key -> value` as a new leaf (or replaces the value of an equal key) and splays
/// that node bottom-up, as [`splay_rec`] does: the flag says that one rotation is left for the
/// level above, the node then being the child of the unchanged root on the side of `key`.
#[verifier::rlimit(80)]
fn splay_ins_rec<K: TreeKey, V>(t: Option<Box<Node<K, V, ()>>>, key: K, value: V) -> (r: (
    Box<Node<K, V, ()>>,
    bool,
    Option<V>,
))
    requires
        ordered(t),
    ensures
        ordered(Some(r.0)),
        map_of(Some(r.0)) == map_of(t).insert(key, value),
        r.2 == (if map_of(t).dom().contains(key) {
            Some(map_of(t)[key])
        } else {
            None::<V>
        }),
        !r.1 ==> r.0.key == key && r.0.value == value,
        r.1 ==> t is Some && r.0.key == t->0.key && r.0.value == t->0.value && key.rank() != t->0.key.rank(),
        r.1 && key.rank() < t->0.key.rank() ==> r.0.right == t->0.right && r.0.left is Some
            && r.0.left->0.key == key,
        r.1 && key.rank() > t->0.key.rank() ==> r.0.left == t->0.left && r.0.right is Some
            && r.0.right->0.key == key,
        (r.0, r.1) == splay_ins_steps(t, key, value),
    decreases t,
{
    let ghost gkey = key;
    match t {
        None => {
            let r = join(key, value, None, None);
            proof {
                assert(map_of(Some(r)) =~= map_of(t).insert(gkey, value));
            }
            (r, false, None)
        },
        Some(b) => {
            proof {
                lemma_map_facts(b);
                lemma_split(b);
            }
            let ghost ob = b;
            let Node { key: gk, value: gv, aux: _, left: gl, right: gr } = *b;
            match key.compare(&gk) {
                KeyOrder::Equal => {
                    let r = join(gk, value, gl, gr);
                    proof {
                        assert(map_of(Some(r)) =~= map_of(t).insert(gkey, value));
                    }
                    (r, false, Some(gv))
                },
                KeyOrder::Less => {
                    proof {
                        if map_of(gr).dom().contains(gkey) {
                            assert(false);
                        }
                    }
                    match gl {
                        None => {
                            let leaf = join(key, value, None, None);
                            let r = join(gk, gv, Some(leaf), gr);
                            proof {
                                assert(map_of(Some(r)) =~= map_of(t).insert(gkey, value));
                            }
                            (r, true, None)
                        },
                        Some(c0) => {
                            let side = key.compare(&c0.key);
                            let (c, odd, old) = splay_ins_rec(Some(c0), key, value);
                            proof {
                                lemma_split(c);
                                lemma_map_facts(c);
                                assert(map_of(Some(c)).dom().contains(c.key));
                                assert(all_below(map_of(Some(c)), gk));
                                assert(map_of(t).insert(gkey, value) =~= map_of(Some(c)).union_prefer_right(
                                    map_of(gr),
                                ).insert(gk, gv));
                            }
                            if !odd {
                                let r = join(gk, gv, Some(c), gr);
                                proof {
                                    assert(map_of(Some(r)) =~= map_of(t).insert(gkey, value));
                                }
                                (r, true, old)
                            } else {
                                let Node { key: pk, value: pv, aux: _, left: pl, right: pr } = *c;
                                match side {
                                    KeyOrder::Less => {
                                        let xn = pl.unwrap();
                                        proof {
                                            lemma_split(xn);
                                            lemma_map_facts(xn);
                                            assert(all_below(map_of(pr), gk));
                                        }
                                        let Node { key: xk, value: xv, aux: _, left: xl, right: xr } = *xn;
                                        let g2 = join(gk, gv, pr, gr);
                                        proof {
                                            assert(all_above(map_of(Some(g2)), pk));
                                            assert(all_below(map_of(xr), pk));
                                        }
                                        let p2 = join(pk, pv, xr, Some(g2));
                                        proof {
                                            assert(all_above(map_of(Some(p2)), xk));
                                        }
                                        let r = join(xk, xv, xl, Some(p2));
                                        proof {
                                            assert(map_of(Some(r)) =~= map_of(t).insert(gkey, value));
                                        }
                                        (r, false, old)
                                    },
                                    _ => {
                                        let xn = pr.unwrap();
                                        proof {
                                            lemma_split(xn);
                                            lemma_map_facts(xn);
                                        }
                                        let Node { key: xk, value: xv, aux: _, left: xl, right: xr } = *xn;
                                        proof {
                                            assert(all_above(map_of(xl), pk));
                                            assert(all_below(map_of(xr), gk));
                                        }
                                        let p2 = join(pk, pv, pl, xl);
                                        let g2 = join(gk, gv, xr, gr);
                                        proof {
                                            assert(all_below(map_of(Some(p2)), xk));
                                            assert(all_above(map_of(Some(g2)), xk));
                                        }
                                        let r = join(xk, xv, Some(p2), Some(g2));
                                        proof {
                                            assert(map_of(Some(r)) =~= map_of(t).insert(gkey, value));
                                        }
                                        (r, false, old)
                                    },
                                }
                            }
                        },
                    }
                },
                KeyOrder::Greater => {
                    proof {
                        if map_of(gl).dom().contains(gkey) {
                            assert(false);
                        }
                    }
                    match gr {
                        None => {
                            let leaf = join(key, value, None, None);
                            let r = join(gk, gv, gl, Some(leaf));
                            proof {
                                assert(map_of(Some(r)) =~= map_of(t).insert(gkey, value));
                            }
                            (r, true, None)
                        },
                        Some(c0) => {
                            let side = key.compare(&c0.key);
                            let (c, odd, old) = splay_ins_rec(Some(c0), key, value);
                            proof {
                                lemma_split(c);
                                lemma_map_facts(c);
                                assert(map_of(Some(c)).dom().contains(c.key));
                                assert(all_above(map_of(Some(c)), gk));
                                assert(map_of(t).insert(gkey, value) =~= map_of(gl).union_prefer_right(
                                    map_of(Some(c)),
                                ).insert(gk, gv));
                            }
                            if !odd {
                                let r = join(gk, gv, gl, Some(c));
                                proof {
                                    assert(map_of(Some(r)) =~= map_of(t).insert(gkey, value));
                                }
                                (r, true, old)
                            } else {
                                let Node { key: pk, value: pv, aux: _, left: pl, right: pr } = *c;
                                match side {
                                    KeyOrder::Greater => {
                                        let xn = pr.unwrap();
                                        proof {
                                            lemma_split(xn);
                                            lemma_map_facts(xn);
                                            assert(all_above(map_of(pl), gk));
                                        }
                                        let Node { key: xk, value: xv, aux: _, left: xl, right: xr } = *xn;
                                        let g2 = join(gk, gv, gl, pl);
                                        proof {
                                            assert(all_below(map_of(Some(g2)), pk));
                                            assert(all_above(map_of(xl), pk));
                                        }
                                        let p2 = join(pk, pv, Some(g2), xl);
                                        proof {
                                            assert(all_below(map_of(Some(p2)), xk));
                                        }
                                        let r = join(xk, xv, Some(p2), xr);
                                        proof {
                                            assert(map_of(Some(r)) =~= map_of(t).insert(gkey, value));
                                        }
                                        (r, false, old)
                                    },
                                    _ => {
                                        let xn = pl.unwrap();
                                        proof {
                                            lemma_split(xn);
                                            lemma_map_facts(xn);
                                        }
                                        let Node { key: xk, value: xv, aux: _, left: xl, right: xr } = *xn;
                                        proof {
                                            assert(all_below(map_of(xr), pk));
                                            assert(all_above(map_of(xl), gk));
                                        }
                                        let g2 = join(gk, gv, gl, xl);
                                        let p2 = join(pk, pv, xr, pr);
                                        proof {
                                            assert(all_below(map_of(Some(g2)), xk));
                                            assert(all_above(map_of(Some(p2)), xk));
                                        }
                                        let r = join(xk, xv, Some(g2), Some(p2));
                                        proof {
                                            assert(map_of(Some(r)) =~= map_of(t).insert(gkey, value));
                                        }
                                        (r, false, old)
                                    },
                                }
                            }
                        },
                    }
                },
            }
        },
    }
}

impl<K: TreeKey, V> BinTree<K, V, ()> {
    /// Splays `key` to the root; the entries do not change.
    pub fn splay_key(&mut self, key: &K)
        requires
            old(self).wf(),
        ensures
            final(self).wf(),
            final(self)@ == old(self)@,
            final(self).link() is Some <==> old(self).link() is Some,
            final(self).link() matches Some(n) ==> splay_root_key(old(self)@, *key, n.key),
            final(self).link() == splay_at(old(self).link(), *key),
    {
        proof {
            self.lemma_inv();
        }
        match self.root.take() {
            None => {},
            Some(b) => {
                let r = splay_node(b, key);
                self.root = Some(r);
            },
        }
    }

    /// Adds `key -> value`, or replaces the value of an equal key, leaving `key` at the root;
    /// returns the replaced value.
    #[verifier::rlimit(30)]
    pub fn splay_insert(&mut self, key: K, value: V) -> (r: Option<V>)
        requires
            old(self).wf(),
            old(self)@.len() < usize::MAX,
        ensures
            final(self).wf(),
            final(self)@ == old(self)@.insert(key, value),
            r == (if old(self)@.dom().contains(key) {
                Some(old(self)@[key])
            } else {
                None::<V>
            }),
            final(self).link() matches Some(n) && n.key == key,
            final(self).link() == Some(splay_inserted(old(self).link(), key, value)),
    {
        proof {
            self.lemma_inv();
        }
        let root = self.root.take();
        let left = match &root {
            Some(b) => match key.compare(&b.key) {
                KeyOrder::Less => true,
                _ => false,
            },
            None => false,
        };
        let ghost gkey = key;
        let (n, odd, prev) = splay_ins_rec(root, key, value);
        let n = if odd {
            zig(n, left)
        } else {
            n
        };
        proof {
            lemma_map_finite_size(Some(n));
            lemma_map_finite_size(old(self).root);
            if prev.is_none() {
                assert(!old(self)@.dom().contains(gkey));
            }
        }
        self.root = Some(n);
        if prev.is_none() {
            self.len = self.len + 1;
        }
        prev
    }

    /// Removes `key` by splaying it to the root and joining its two subtrees under the largest
    /// key of the left one; returns the removed value. A missing key leaves the tree as it is.
    #[verifier::rlimit(30)]
    pub fn splay_remove(&mut self, key: &K) -> (r: Option<V>)
        requires
            old(self).wf(),
        ensures
            final(self).wf(),
            final(self)@ == old(self)@.remove(*key),
            r == (if old(self)@.dom().contains(*key) {
                Some(old(self)@[*key])
            } else {
                None::<V>
            }),
            !old(self)@.dom().contains(*key) ==> final(self).link() == old(self).link(),
            final(self).link() == splay_removed(old(self).link(), *key),
    {
        proof {
            self.lemma_inv();
        }
        if !self.contains_key(key) {
            proof {
                assert(old(self)@ =~= old(self)@.remove(*key));
            }
            return None;
        }
        let b = self.root.take().unwrap();
        let s = splay_node(b, key);
        proof {
            lemma_split(s);
            lemma_map_facts(s);
        }
        let Node { key: sk, value: sv, aux: _, left: sl, right: sr } = *s;
        let rest = match sl {
            None => sr,
            Some(lb) => {
                let m = splay_node(lb, key);
                proof {
                    lemma_split(m);
                    lemma_map_facts(m);
                    assert(is_prev_key(map_of(Some(lb)), *key, m.key));
                    if m.right.is_some() {
                        let rb = m.right.unwrap();
                        lemma_map_facts(rb);
                        assert(map_of(Some(lb)).dom().contains(rb.key));
                        assert(false);
                    }
                }
                let Node { key: mk, value: mv, aux: _, left: ml, right: _ } = *m;
                proof {
                    assert(all_above(map_of(sr), mk));
                }
                Some(join(mk, mv, ml, sr))
            },
        };
        proof {
            assert(map_of(rest) =~= old(self)@.remove(*key));
            lemma_map_finite_size(rest);
            lemma_map_finite_size(old(self).root);
        }
        self.root = rest;
        self.len = self.len - 1;
        Some(sv)
    }

    /// Splays `key` to the root and returns the root position when it holds `key`.
    pub fn splay_get<'a>(&'a mut self, key: &K) -> (r: Option<NodeRef<'a, K, V, ()>>)
        requires
            old(self).wf(),
        ensures
            final(self).wf(),
            final(self)@ == old(self)@,
            final(self).link() is Some <==> old(self).link() is Some,
            final(self).link() matches Some(n) ==> splay_root_key(old(self)@, *key, n.key),
            r is Some <==> old(self)@.dom().contains(*key),
            r matches Some(p) ==> p.wf() && p.node.key == *key && p.node.value == old(self)@[*key]
                && *p.root == final(self).link() && final(self).link() == Some(Box::new(*p.node)),
            final(self).link() == splay_at(old(self).link(), *key),
    {
        self.splay_key(key);
        let this: &'a Self = self;
        proof {
            this.lemma_inv();
        }
        match this.root_ref() {
            None => None,
            Some(p) => {
                proof {
                    assert(this.link() == Some(Box::new(*p.node)));
                    lemma_map_facts(Box::new(*p.node));
                    assert(this@.dom().contains(p.node.key));
                }
                if let KeyOrder::Equal = key.compare(&p.node.key) {
                    Some(p)
                } else {
                    None
                }
            },
        }
    }
}

} // verus!
