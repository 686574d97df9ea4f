//! Red-black tree: the `arena` variant. Its nodes sit in an index-linked arena with a free list of
//! reusable slots (see `arena_store`); the arena holds the same owned-node model that the
//! other variants state their contracts over. Insertion and its fix-ups work over the slots;
//! removal moves the tree out of the arena, runs the boxed engine, and stores the result back.
use vstd::prelude::*;

use crate::key::TreeKey;
use crate::trees::arena_tree::{ARef, ArenaTree};
use crate::trees::node::{
    entries_to_map, lemma_entries_to_map_len,
    has_key_above, has_key_below, height_of, is_max_key, is_min_key, is_next_key, is_prev_key,
    is_child, lemma_child_smaller, lemma_map_facts, lemma_map_finite_size, size_of, lemma_parent_unique, lemma_subtree_facts, lemma_subtree_unique, map_of, ordered, Node,
};
use crate::trees::node::seq_of;
pub use crate::trees::red_black_tree::engine::NodeColor;
use crate::key::KeyOrder;
use crate::trees::red_black_tree::engine::{is_red, lemma_rb_put, rb_put, lemma_rb_inv_subtree, rb_blackened, rb_fixed_left, rb_fixed_right, rb_inserted, rb_inv, rb_node, rb_ok, rb_removed, sizes_ok, RbAux, RbLink};
use crate::trees::arena_store::{foot, holds, keeps, fresh, lemma_foot_live, lemma_keeps_holds, lemma_keeps_trans, lemma_kept_fresh, lemma_step_frame, Arena};

verus! {

/// The root of `t`, if any, stores the size of `t`.
pub open spec fn size_stored<K, V>(t: RbLink<K, V>) -> bool {
    t matches Some(b) ==> b.aux.size == size_of(t)
}

/// The size stored in slot `i`, the root of the subtree `t` (0 when there is none).
fn slot_size<K, V>(a: &Arena<K, V, RbAux>, i: Option<usize>, Ghost(t): Ghost<RbLink<K, V>>) -> (s: usize)
    requires
        holds(a.nodes@, i, t),
        size_stored(t),
    ensures
        s == size_of(t),
{
    match i {
        None => 0,
        Some(x) => a.node(x).aux.size,
    }
}

/// Whether the subtree `t` at slot `i` has a red root.
fn slot_red<K, V>(a: &Arena<K, V, RbAux>, i: Option<usize>, Ghost(t): Ghost<RbLink<K, V>>) -> (r: bool)
    requires
        holds(a.nodes@, i, t),
    ensures
        r == is_red(t),
{
    match i {
        None => false,
        Some(x) => a.node(x).aux.color == NodeColor::Red,
    }
}

/// Stores the node of colour `color` over the subtrees at `l` and `r` in a fresh slot, with its
/// size.
fn rb_make_at<K, V>(
    a: &mut Arena<K, V, RbAux>,
    color: NodeColor,
    key: K,
    value: V,
    l: Option<usize>,
    Ghost(lt): Ghost<RbLink<K, V>>,
    r: Option<usize>,
    Ghost(rt): Ghost<RbLink<K, V>>,
) -> (x: usize)
    requires
        old(a).ok(),
        holds(old(a).nodes@, l, lt),
        holds(old(a).nodes@, r, rt),
        foot(old(a).nodes@, l, lt).disjoint(foot(old(a).nodes@, r, rt)),
        size_stored(lt),
        size_stored(rt),
        size_of(lt) + size_of(rt) < usize::MAX,
    ensures
        final(a).ok(),
        holds(final(a).nodes@, Some(x), Some(rb_node(color, key, value, lt, rt))),
        foot(final(a).nodes@, Some(x), Some(rb_node(color, key, value, lt, rt))) == set![x] + foot(
            old(a).nodes@,
            l,
            lt,
        ) + foot(old(a).nodes@, r, rt),
        keeps(old(a).nodes@, final(a).nodes@, Set::empty()),
        x >= old(a).nodes@.len() || old(a).nodes@[x as int] is None,
        size_stored(Some(rb_node(color, key, value, lt, rt))),
{
    let sl = slot_size(a, l, Ghost(lt));
    let sr = slot_size(a, r, Ghost(rt));
    let size = sl + sr + 1;
    proof {
        assert(rb_node(color, key, value, lt, rt) == Box::new(
            Node { key, value, aux: RbAux { color, size }, left: lt, right: rt },
        ));
    }
    a.link_node(key, value, RbAux { color, size }, l, Ghost(lt), r, Ghost(rt))
}

/// Stores the root node of the subtree `t` at slot `x` again, painted black.
fn blacken_at<K, V>(a: &mut Arena<K, V, RbAux>, x: usize, Ghost(t): Ghost<RbLink<K, V>>) -> (y: usize)
    requires
        old(a).ok(),
        holds(old(a).nodes@, Some(x), t),
        size_stored(t),
    ensures
        t is Some,
        final(a).ok(),
        holds(final(a).nodes@, Some(y), Some(rb_blackened(t->0))),
        keeps(old(a).nodes@, final(a).nodes@, foot(old(a).nodes@, Some(x), t)),
        fresh(old(a).nodes@, foot(final(a).nodes@, Some(y), Some(rb_blackened(t->0))), foot(old(a).nodes@, Some(x), t)),
        size_stored(Some(rb_blackened(t->0))),
{
    let ghost s0 = a.nodes@;
    proof {
        assert(s0.len() == a.nodes.len());
    }
    let ghost b = t->0;
    proof {
        lemma_foot_live(s0, Some(x), t);
    }
    let n = a.unlink_node(x, Ghost(t));
    let ghost s1 = a.nodes@;
    let y = a.link_node(n.key, n.value, RbAux { color: NodeColor::Black, size: n.aux.size }, n.left, Ghost(b.left), n.right, Ghost(b.right));
    proof {
        let s2 = a.nodes@;
        let u = foot(s0, Some(x), t);
        let res = Some(rb_blackened(b));
        assert(res == Some(Box::new(Node { key: n.key, value: n.value, aux: RbAux { color: NodeColor::Black, size: n.aux.size }, left: b.left, right: b.right })));
        assert(keeps(s0, s1, set![x]));
        lemma_keeps_trans(s0, s1, s2, set![x], Set::empty(), u);
        lemma_kept_fresh(s0, s1, u, y);
        assert forall|j: usize| #[trigger] foot(s2, Some(y), res).contains(j) implies u.contains(j) || j >= s0.len()
            || s0[j as int] is None by {}
    }
    y
}

/// The insertion fix-up `rb_fixed_left` over the slots: at a black node whose left subtree at
/// slot `l` may be red with a red child. The slots of the two subtrees are reused or left free;
/// every other occupied slot stays.
#[verifier::spinoff_prover]
#[verifier::rlimit(80)]
fn fixed_left_at<K, V>(
    a: &mut Arena<K, V, RbAux>,
    l: usize,
    Ghost(lt): Ghost<RbLink<K, V>>,
    key: K,
    value: V,
    r: Option<usize>,
    Ghost(rt): Ghost<RbLink<K, V>>,
) -> (x: usize)
    requires
        old(a).ok(),
        holds(old(a).nodes@, Some(l), lt),
        holds(old(a).nodes@, r, rt),
        foot(old(a).nodes@, Some(l), lt).disjoint(foot(old(a).nodes@, r, rt)),
        sizes_ok(lt),
        sizes_ok(rt),
        size_of(lt) + size_of(rt) < usize::MAX,
    ensures
        final(a).ok(),
        holds(final(a).nodes@, Some(x), Some(rb_fixed_left(lt, key, value, rt))),
        keeps(old(a).nodes@, final(a).nodes@, foot(old(a).nodes@, Some(l), lt) + foot(old(a).nodes@, r, rt)),
        fresh(
            old(a).nodes@,
            foot(final(a).nodes@, Some(x), Some(rb_fixed_left(lt, key, value, rt))),
            foot(old(a).nodes@, Some(l), lt) + foot(old(a).nodes@, r, rt),
        ),
{
    let ghost s0 = a.nodes@;
    proof {
        assert(s0.len() == a.nodes.len());
    }
    let ghost u = foot(s0, Some(l), lt) + foot(s0, r, rt);
    let ghost res = Some(rb_fixed_left(lt, key, value, rt));
    proof {
        lemma_foot_live(s0, Some(l), lt);
        lemma_foot_live(s0, r, rt);
    }
    if !slot_red(a, Some(l), Ghost(lt)) {
        let x = rb_make_at(a, NodeColor::Black, key, value, Some(l), Ghost(lt), r, Ghost(rt));
        proof {
            assert(keeps(s0, a.nodes@, u));
            assert forall|j: usize| #[trigger] foot(a.nodes@, Some(x), res).contains(j) implies u.contains(j)
                || j >= s0.len() || s0[j as int] is None by {}
        }
        return x;
    }
    let ghost lb = lt->0;
    let ghost ll = lb.left;
    let ghost lr = lb.right;
    let n1 = a.unlink_node(l, Ghost(lt));
    let ghost s1 = a.nodes@;
    proof {
        assert(keeps(s0, s1, set![l]));
        lemma_keeps_holds(s0, s1, set![l], r, rt);
        lemma_foot_live(s1, n1.left, ll);
        lemma_foot_live(s1, n1.right, lr);
        lemma_foot_live(s1, r, rt);
        assert(sizes_ok(ll) && sizes_ok(lr));
    }
    let red_ll = slot_red(a, n1.left, Ghost(ll));
    let red_lr = slot_red(a, n1.right, Ghost(lr));
    let red_r = slot_red(a, r, Ghost(rt));
    if (red_ll || red_lr) && red_r {
        let c = rb_make_at(a, NodeColor::Black, n1.key, n1.value, n1.left, Ghost(ll), n1.right, Ghost(lr));
        let ghost s2 = a.nodes@;
        let ghost ct = Some(rb_node(NodeColor::Black, lb.key, lb.value, ll, lr));
        proof {
            lemma_keeps_holds(s1, s2, Set::empty(), r, rt);
            assert(sizes_ok(rt));
        }
        let w = blacken_at(a, r.unwrap(), Ghost(rt));
        let ghost s3 = a.nodes@;
        let ghost wt = Some(rb_blackened(rt->0));
        proof {
            lemma_foot_live(s2, Some(c), ct);
            lemma_foot_live(s2, r, rt);
            assert(foot(s2, Some(c), ct).disjoint(foot(s2, r, rt)));
            lemma_keeps_holds(s2, s3, foot(s2, r, rt), Some(c), ct);
            lemma_foot_live(s3, Some(w), wt);
            assert(foot(s3, Some(c), ct).disjoint(foot(s3, Some(w), wt))) by {
                assert forall|j: usize| #[trigger] foot(s3, Some(w), wt).contains(j) implies !foot(s3, Some(c), ct).contains(j) by {
                    assert(foot(s2, Some(c), ct).contains(j) ==> s2[j as int] is Some);
                }
            }
            assert(size_of(wt) == size_of(rt));
        }
        let x = rb_make_at(a, NodeColor::Red, key, value, Some(c), Ghost(ct), Some(w), Ghost(wt));
        proof {
            let s4 = a.nodes@;
            assert(res == Some(rb_node(NodeColor::Red, key, value, ct, wt)));
            lemma_keeps_trans(s0, s1, s2, set![l], Set::empty(), u);
            lemma_keeps_trans(s0, s2, s3, u, foot(s2, r, rt), u);
            lemma_keeps_trans(s0, s3, s4, u, Set::empty(), u);
            lemma_kept_fresh(s0, s1, u, c);
            lemma_kept_fresh(s0, s3, u, x);
            assert forall|j: usize| #[trigger] foot(s4, Some(x), res).contains(j) implies u.contains(j)
                || j >= s0.len() || s0[j as int] is None by {
                if j != x && j != c && !foot(s1, n1.left, ll).contains(j) && !foot(s1, n1.right, lr).contains(j) {
                    assert(foot(s3, Some(w), wt).contains(j));
                    if !foot(s2, r, rt).contains(j) {
                        lemma_kept_fresh(s0, s2, u, j);
                    }
                }
            }
        }
        x
    } else if red_ll {
        let n2 = rb_make_at(a, NodeColor::Red, key, value, n1.right, Ghost(lr), r, Ghost(rt));
        let ghost s2 = a.nodes@;
        let ghost t2 = Some(rb_node(NodeColor::Red, key, value, lr, rt));
        proof {
            lemma_keeps_holds(s1, s2, Set::empty(), n1.left, ll);
            lemma_foot_live(s2, Some(n2), t2);
            assert(!foot(s1, n1.left, ll).contains(n2));
            assert(foot(s2, n1.left, ll).disjoint(foot(s2, Some(n2), t2)));
        }
        let x = rb_make_at(a, NodeColor::Black, n1.key, n1.value, n1.left, Ghost(ll), Some(n2), Ghost(t2));
        proof {
            let s3 = a.nodes@;
            assert(res == Some(rb_node(NodeColor::Black, lb.key, lb.value, ll, t2)));
            lemma_keeps_trans(s0, s1, s2, set![l], Set::empty(), u);
            lemma_keeps_trans(s0, s2, s3, u, Set::empty(), u);
            lemma_kept_fresh(s0, s1, u, n2);
            lemma_kept_fresh(s0, s2, u, x);
            assert forall|j: usize| #[trigger] foot(s3, Some(x), res).contains(j) implies u.contains(j)
                || j >= s0.len() || s0[j as int] is None by {
                if j != x && j != n2 {
                    assert(foot(s1, n1.left, ll).contains(j) || foot(s1, n1.right, lr).contains(j) || foot(s1, r, rt).contains(j));
                }
            }
        }
        x
    } else if red_lr {
        let yx = n1.right.unwrap();
        let ghost yb = lr->0;
        let ghost yl = yb.left;
        let ghost yr = yb.right;
        let ny = a.unlink_node(yx, Ghost(lr));
        let ghost s2 = a.nodes@;
        proof {
            assert(keeps(s1, s2, set![yx]));
            lemma_keeps_holds(s1, s2, set![yx], n1.left, ll);
            lemma_keeps_holds(s1, s2, set![yx], r, rt);
            lemma_foot_live(s2, ny.left, yl);
            lemma_foot_live(s2, ny.right, yr);
            assert(sizes_ok(lr));
            assert(sizes_ok(yl) && sizes_ok(yr));
        }
        let m1 = rb_make_at(a, NodeColor::Red, n1.key, n1.value, n1.left, Ghost(ll), ny.left, Ghost(yl));
        let ghost s3 = a.nodes@;
        let ghost t1 = Some(rb_node(NodeColor::Red, lb.key, lb.value, ll, yl));
        proof {
            lemma_keeps_holds(s2, s3, Set::empty(), ny.right, yr);
            lemma_keeps_holds(s2, s3, Set::empty(), r, rt);
        }
        let m2 = rb_make_at(a, NodeColor::Red, key, value, ny.right, Ghost(yr), r, Ghost(rt));
        let ghost s4 = a.nodes@;
        let ghost t2 = Some(rb_node(NodeColor::Red, key, value, yr, rt));
        proof {
            lemma_foot_live(s3, Some(m1), t1);
            lemma_keeps_holds(s3, s4, Set::empty(), Some(m1), t1);
            lemma_foot_live(s4, Some(m2), t2);
            assert(!foot(s3, Some(m1), t1).contains(m2));
            assert(foot(s4, Some(m1), t1).disjoint(foot(s4, Some(m2), t2)));
        }
        let x = rb_make_at(a, NodeColor::Black, ny.key, ny.value, Some(m1), Ghost(t1), Some(m2), Ghost(t2));
        proof {
            let s5 = a.nodes@;
            assert(res == Some(rb_node(NodeColor::Black, yb.key, yb.value, t1, t2)));
            lemma_keeps_trans(s0, s1, s2, set![l], set![yx], u);
            lemma_keeps_trans(s0, s2, s3, u, Set::empty(), u);
            lemma_keeps_trans(s0, s3, s4, u, Set::empty(), u);
            lemma_keeps_trans(s0, s4, s5, u, Set::empty(), u);
            lemma_kept_fresh(s0, s2, u, m1);
            lemma_kept_fresh(s0, s3, u, m2);
            lemma_kept_fresh(s0, s4, u, x);
            assert forall|j: usize| #[trigger] foot(s5, Some(x), res).contains(j) implies u.contains(j)
                || j >= s0.len() || s0[j as int] is None by {
                if j != x && j != m2 && j != m1 {
                    assert(foot(s1, n1.left, ll).contains(j) || foot(s1, n1.right, lr).contains(j) || foot(s1, r, rt).contains(j));
                }
            }
        }
        x
    } else {
        let c = rb_make_at(a, NodeColor::Red, n1.key, n1.value, n1.left, Ghost(ll), n1.right, Ghost(lr));
        let ghost s2 = a.nodes@;
        let ghost ct = Some(rb_node(NodeColor::Red, lb.key, lb.value, ll, lr));
        proof {
            lemma_keeps_holds(s1, s2, Set::empty(), r, rt);
            lemma_foot_live(s2, Some(c), ct);
            assert(!foot(s1, r, rt).contains(c));
            assert(foot(s2, Some(c), ct).disjoint(foot(s2, r, rt)));
        }
        let x = rb_make_at(a, NodeColor::Black, key, value, Some(c), Ghost(ct), r, Ghost(rt));
        proof {
            let s3 = a.nodes@;
            assert(res == Some(rb_node(NodeColor::Black, key, value, ct, rt)));
            lemma_keeps_trans(s0, s1, s2, set![l], Set::empty(), u);
            lemma_keeps_trans(s0, s2, s3, u, Set::empty(), u);
            lemma_kept_fresh(s0, s1, u, c);
            lemma_kept_fresh(s0, s2, u, x);
            assert forall|j: usize| #[trigger] foot(s3, Some(x), res).contains(j) implies u.contains(j)
                || j >= s0.len() || s0[j as int] is None by {
                if j != x && j != c {
                    assert(foot(s1, n1.left, ll).contains(j) || foot(s1, n1.right, lr).contains(j) || foot(s1, r, rt).contains(j));
                }
            }
        }
        x
    }
}

/// The mirror image of [`fixed_left_at`]: the fix-up `rb_fixed_right` at a black node whose
/// right subtree at slot `r` may be red with a red child.
#[verifier::spinoff_prover]
#[verifier::rlimit(80)]
fn fixed_right_at<K, V>(
    a: &mut Arena<K, V, RbAux>,
    l: Option<usize>,
    Ghost(lt): Ghost<RbLink<K, V>>,
    key: K,
    value: V,
    r: usize,
    Ghost(rt): Ghost<RbLink<K, V>>,
) -> (x: usize)
    requires
        old(a).ok(),
        holds(old(a).nodes@, l, lt),
        holds(old(a).nodes@, Some(r), rt),
        foot(old(a).nodes@, l, lt).disjoint(foot(old(a).nodes@, Some(r), rt)),
        sizes_ok(lt),
        sizes_ok(rt),
        size_of(lt) + size_of(rt) < usize::MAX,
    ensures
        final(a).ok(),
        holds(final(a).nodes@, Some(x), Some(rb_fixed_right(lt, key, value, rt))),
        keeps(old(a).nodes@, final(a).nodes@, foot(old(a).nodes@, l, lt) + foot(old(a).nodes@, Some(r), rt)),
        fresh(
            old(a).nodes@,
            foot(final(a).nodes@, Some(x), Some(rb_fixed_right(lt, key, value, rt))),
            foot(old(a).nodes@, l, lt) + foot(old(a).nodes@, Some(r), rt),
        ),
{
    let ghost s0 = a.nodes@;
    proof {
        assert(s0.len() == a.nodes.len());
    }
    let ghost u = foot(s0, l, lt) + foot(s0, Some(r), rt);
    let ghost res = Some(rb_fixed_right(lt, key, value, rt));
    proof {
        lemma_foot_live(s0, Some(r), rt);
        lemma_foot_live(s0, l, lt);
    }
    if !slot_red(a, Some(r), Ghost(rt)) {
        let x = rb_make_at(a, NodeColor::Black, key, value, l, Ghost(lt), Some(r), Ghost(rt));
        proof {
            assert(keeps(s0, a.nodes@, u));
            assert forall|j: usize| #[trigger] foot(a.nodes@, Some(x), res).contains(j) implies u.contains(j)
                || j >= s0.len() || s0[j as int] is None by {}
        }
        return x;
    }
    let ghost rb = rt->0;
    let ghost rl = rb.left;
    let ghost rr = rb.right;
    let n1 = a.unlink_node(r, Ghost(rt));
    let ghost s1 = a.nodes@;
    proof {
        assert(keeps(s0, s1, set![r]));
        lemma_keeps_holds(s0, s1, set![r], l, lt);
        lemma_foot_live(s1, n1.left, rl);
        lemma_foot_live(s1, n1.right, rr);
        lemma_foot_live(s1, l, lt);
        assert(sizes_ok(rl) && sizes_ok(rr));
    }
    let red_rl = slot_red(a, n1.left, Ghost(rl));
    let red_rr = slot_red(a, n1.right, Ghost(rr));
    let red_l = slot_red(a, l, Ghost(lt));
    if (red_rl || red_rr) && red_l {
        let c = rb_make_at(a, NodeColor::Black, n1.key, n1.value, n1.left, Ghost(rl), n1.right, Ghost(rr));
        let ghost s2 = a.nodes@;
        let ghost ct = Some(rb_node(NodeColor::Black, rb.key, rb.value, rl, rr));
        proof {
            lemma_keeps_holds(s1, s2, Set::empty(), l, lt);
            assert(sizes_ok(lt));
        }
        let w = blacken_at(a, l.unwrap(), Ghost(lt));
        let ghost s3 = a.nodes@;
        let ghost wt = Some(rb_blackened(lt->0));
        proof {
            lemma_foot_live(s2, Some(c), ct);
            lemma_foot_live(s2, l, lt);
            assert(foot(s2, Some(c), ct).disjoint(foot(s2, l, lt)));
            lemma_keeps_holds(s2, s3, foot(s2, l, lt), Some(c), ct);
            lemma_foot_live(s3, Some(w), wt);
            assert(foot(s3, Some(w), wt).disjoint(foot(s3, Some(c), ct))) by {
                assert forall|j: usize| #[trigger] foot(s3, Some(w), wt).contains(j) implies !foot(s3, Some(c), ct).contains(j) by {
                    assert(foot(s2, Some(c), ct).contains(j) ==> s2[j as int] is Some);
                }
            }
            assert(size_of(wt) == size_of(lt));
        }
        let x = rb_make_at(a, NodeColor::Red, key, value, Some(w), Ghost(wt), Some(c), Ghost(ct));
        proof {
            let s4 = a.nodes@;
            assert(res == Some(rb_node(NodeColor::Red, key, value, wt, ct)));
            lemma_keeps_trans(s0, s1, s2, set![r], Set::empty(), u);
            lemma_keeps_trans(s0, s2, s3, u, foot(s2, l, lt), u);
            lemma_keeps_trans(s0, s3, s4, u, Set::empty(), u);
            lemma_kept_fresh(s0, s1, u, c);
            lemma_kept_fresh(s0, s3, u, x);
            assert forall|j: usize| #[trigger] foot(s4, Some(x), res).contains(j) implies u.contains(j)
                || j >= s0.len() || s0[j as int] is None by {
                if j != x && j != c && !foot(s1, n1.left, rl).contains(j) && !foot(s1, n1.right, rr).contains(j) {
                    assert(foot(s3, Some(w), wt).contains(j));
                    if !foot(s2, l, lt).contains(j) {
                        lemma_kept_fresh(s0, s2, u, j);
                    }
                }
            }
        }
        x
    } else if red_rr {
        let n2 = rb_make_at(a, NodeColor::Red, key, value, l, Ghost(lt), n1.left, Ghost(rl));
        let ghost s2 = a.nodes@;
        let ghost t2 = Some(rb_node(NodeColor::Red, key, value, lt, rl));
        proof {
            lemma_keeps_holds(s1, s2, Set::empty(), n1.right, rr);
            lemma_foot_live(s2, Some(n2), t2);
            assert(!foot(s1, n1.right, rr).contains(n2));
            assert(foot(s2, Some(n2), t2).disjoint(foot(s2, n1.right, rr)));
        }
        let x = rb_make_at(a, NodeColor::Black, n1.key, n1.value, Some(n2), Ghost(t2), n1.right, Ghost(rr));
        proof {
            let s3 = a.nodes@;
            assert(res == Some(rb_node(NodeColor::Black, rb.key, rb.value, t2, rr)));
            lemma_keeps_trans(s0, s1, s2, set![r], Set::empty(), u);
            lemma_keeps_trans(s0, s2, s3, u, Set::empty(), u);
            lemma_kept_fresh(s0, s1, u, n2);
            lemma_kept_fresh(s0, s2, u, x);
            assert forall|j: usize| #[trigger] foot(s3, Some(x), res).contains(j) implies u.contains(j)
                || j >= s0.len() || s0[j as int] is None by {
                if j != x && j != n2 {
                    assert(foot(s1, n1.left, rl).contains(j) || foot(s1, n1.right, rr).contains(j) || foot(s1, l, lt).contains(j));
                }
            }
        }
        x
    } else if red_rl {
        let yx = n1.left.unwrap();
        let ghost yb = rl->0;
        let ghost yl = yb.left;
        let ghost yr = yb.right;
        let ny = a.unlink_node(yx, Ghost(rl));
        let ghost s2 = a.nodes@;
        proof {
            assert(keeps(s1, s2, set![yx]));
            lemma_keeps_holds(s1, s2, set![yx], n1.right, rr);
            lemma_keeps_holds(s1, s2, set![yx], l, lt);
            lemma_foot_live(s2, ny.left, yl);
            lemma_foot_live(s2, ny.right, yr);
            assert(sizes_ok(rl));
            assert(sizes_ok(yl) && sizes_ok(yr));
        }
        let m1 = rb_make_at(a, NodeColor::Red, key, value, l, Ghost(lt), ny.left, Ghost(yl));
        let ghost s3 = a.nodes@;
        let ghost t1 = Some(rb_node(NodeColor::Red, key, value, lt, yl));
        proof {
            lemma_keeps_holds(s2, s3, Set::empty(), ny.right, yr);
            lemma_keeps_holds(s2, s3, Set::empty(), n1.right, rr);
        }
        let m2 = rb_make_at(a, NodeColor::Red, n1.key, n1.value, ny.right, Ghost(yr), n1.right, Ghost(rr));
        let ghost s4 = a.nodes@;
        let ghost t2 = Some(rb_node(NodeColor::Red, rb.key, rb.value, yr, rr));
        proof {
            lemma_foot_live(s3, Some(m1), t1);
            lemma_keeps_holds(s3, s4, Set::empty(), Some(m1), t1);
            lemma_foot_live(s4, Some(m2), t2);
            assert(!foot(s3, Some(m1), t1).contains(m2));
            assert(foot(s4, Some(m1), t1).disjoint(foot(s4, Some(m2), t2)));
        }
        let x = rb_make_at(a, NodeColor::Black, ny.key, ny.value, Some(m1), Ghost(t1), Some(m2), Ghost(t2));
        proof {
            let s5 = a.nodes@;
            assert(res == Some(rb_node(NodeColor::Black, yb.key, yb.value, t1, t2)));
            lemma_keeps_trans(s0, s1, s2, set![r], set![yx], u);
            lemma_keeps_trans(s0, s2, s3, u, Set::empty(), u);
            lemma_keeps_trans(s0, s3, s4, u, Set::empty(), u);
            lemma_keeps_trans(s0, s4, s5, u, Set::empty(), u);
            lemma_kept_fresh(s0, s2, u, m1);
            lemma_kept_fresh(s0, s3, u, m2);
            lemma_kept_fresh(s0, s4, u, x);
            assert forall|j: usize| #[trigger] foot(s5, Some(x), res).contains(j) implies u.contains(j)
                || j >= s0.len() || s0[j as int] is None by {
                if j != x && j != m2 && j != m1 {
                    assert(foot(s1, n1.left, rl).contains(j) || foot(s1, n1.right, rr).contains(j) || foot(s1, l, lt).contains(j));
                }
            }
        }
        x
    } else {
        let c = rb_make_at(a, NodeColor::Red, n1.key, n1.value, n1.left, Ghost(rl), n1.right, Ghost(rr));
        let ghost s2 = a.nodes@;
        let ghost ct = Some(rb_node(NodeColor::Red, rb.key, rb.value, rl, rr));
        proof {
            lemma_keeps_holds(s1, s2, Set::empty(), l, lt);
            lemma_foot_live(s2, Some(c), ct);
            assert(!foot(s1, l, lt).contains(c));
            assert(foot(s2, l, lt).disjoint(foot(s2, Some(c), ct)));
        }
        let x = rb_make_at(a, NodeColor::Black, key, value, l, Ghost(lt), Some(c), Ghost(ct));
        proof {
            let s3 = a.nodes@;
            assert(res == Some(rb_node(NodeColor::Black, key, value, lt, ct)));
            lemma_keeps_trans(s0, s1, s2, set![r], Set::empty(), u);
            lemma_keeps_trans(s0, s2, s3, u, Set::empty(), u);
            lemma_kept_fresh(s0, s1, u, c);
            lemma_kept_fresh(s0, s2, u, x);
            assert forall|j: usize| #[trigger] foot(s3, Some(x), res).contains(j) implies u.contains(j)
                || j >= s0.len() || s0[j as int] is None by {
                if j != x && j != c {
                    assert(foot(s1, n1.left, rl).contains(j) || foot(s1, n1.right, rr).contains(j) || foot(s1, l, lt).contains(j));
                }
            }
        }
        x
    }
}

/// Puts `key -> value` below the red-black subtree `t` at slot `i` (`rb_put`): a new red leaf
/// where the search ends, the value replaced at an equal key, and the fix-up at every black
/// node on the way back up, over the slots themselves. Gives the slot of the new root and the
/// replaced value; the slots of `t` are reused or left free, every other occupied slot stays.
#[verifier::spinoff_prover]
#[verifier::rlimit(60)]
fn rb_put_at<K: TreeKey, V>(
    a: &mut Arena<K, V, RbAux>,
    i: Option<usize>,
    Ghost(t): Ghost<RbLink<K, V>>,
    key: K,
    value: V,
) -> (r: (usize, Option<V>))
    requires
        old(a).ok(),
        holds(old(a).nodes@, i, t),
        rb_inv(t),
        sizes_ok(t),
        ordered(t),
        size_of(t) < usize::MAX,
    ensures
        final(a).ok(),
        holds(final(a).nodes@, Some(r.0), Some(rb_put(t, key, value))),
        keeps(old(a).nodes@, final(a).nodes@, foot(old(a).nodes@, i, t)),
        fresh(old(a).nodes@, foot(final(a).nodes@, Some(r.0), Some(rb_put(t, key, value))), foot(old(a).nodes@, i, t)),
        r.1 == (if map_of(t).dom().contains(key) {
            Some(map_of(t)[key])
        } else {
            None::<V>
        }),
    decreases t,
{
    match i {
        None => {
            let x = rb_make_at(a, NodeColor::Red, key, value, None, Ghost(None), None, Ghost(None));
            proof {
                assert(foot(a.nodes@, Some(x), Some(rb_put(t, key, value))) =~= set![x]);
            }
            (x, None)
        },
        Some(x) => {
            let ghost s0 = a.nodes@;
            proof {
                assert(s0.len() == a.nodes.len());
            }
            let ghost b = t->0;
            let ghost u = foot(s0, i, t);
            proof {
                lemma_foot_live(s0, i, t);
                lemma_map_facts(b);
                lemma_map_finite_size(t);
                assert(rb_inv(b.left) && rb_inv(b.right));
                assert(sizes_ok(b.left) && sizes_ok(b.right));
            }
            let n = a.unlink_node(x, Ghost(t));
            let ghost s1 = a.nodes@;
            proof {
                assert(keeps(s0, s1, set![x]));
                lemma_foot_live(s1, n.left, b.left);
                lemma_foot_live(s1, n.right, b.right);
            }
            match key.compare(&n.key) {
                KeyOrder::Equal => {
                    let y = rb_make_at(a, n.aux.color, n.key, value, n.left, Ghost(b.left), n.right, Ghost(b.right));
                    proof {
                        let s2 = a.nodes@;
                        let res = Some(rb_put(t, key, value));
                        lemma_keeps_trans(s0, s1, s2, set![x], Set::empty(), u);
                        lemma_kept_fresh(s0, s1, u, y);
                        assert forall|j: usize| #[trigger] foot(s2, Some(y), res).contains(j) implies u.contains(j)
                            || j >= s0.len() || s0[j as int] is None by {}
                    }
                    (y, Some(n.value))
                },
                KeyOrder::Less => {
                    let ghost lt = b.left;
                    let ghost nl = Some(rb_put(lt, key, value));
                    proof {
                        lemma_rb_put(lt, key, value);
                    }
                    let (c, found) = rb_put_at(a, n.left, Ghost(lt), key, value);
                    let ghost s2 = a.nodes@;
                    proof {
                        lemma_keeps_holds(s1, s2, foot(s1, n.left, lt), n.right, b.right);
                        lemma_foot_live(s2, Some(c), nl);
                        lemma_foot_live(s2, n.right, b.right);
                        assert(foot(s2, Some(c), nl).disjoint(foot(s2, n.right, b.right))) by {
                            assert forall|j: usize| #[trigger] foot(s2, Some(c), nl).contains(j) implies !foot(
                                s2,
                                n.right,
                                b.right,
                            ).contains(j) by {
                                assert(foot(s1, n.right, b.right).contains(j) ==> s1[j as int] is Some);
                            }
                        }
                    }
                    let y = if n.aux.color == NodeColor::Black {
                        fixed_left_at(a, c, Ghost(nl), n.key, n.value, n.right, Ghost(b.right))
                    } else {
                        rb_make_at(a, NodeColor::Red, n.key, n.value, Some(c), Ghost(nl), n.right, Ghost(b.right))
                    };
                    proof {
                        let s3 = a.nodes@;
                        assert(u =~= set![x] + foot(s1, n.left, lt) + foot(s2, n.right, b.right));
                        lemma_step_frame(s0, s1, s2, s3, x, u, foot(s1, n.left, lt), foot(s2, Some(c), nl), foot(
                            s2,
                            n.right,
                            b.right,
                        ), foot(s3, Some(y), Some(rb_put(t, key, value))));
                    }
                    (y, found)
                },
                KeyOrder::Greater => {
                    let ghost rt = b.right;
                    let ghost nr = Some(rb_put(rt, key, value));
                    proof {
                        lemma_rb_put(rt, key, value);
                    }
                    let (c, found) = rb_put_at(a, n.right, Ghost(rt), key, value);
                    let ghost s2 = a.nodes@;
                    proof {
                        lemma_keeps_holds(s1, s2, foot(s1, n.right, rt), n.left, b.left);
                        lemma_foot_live(s2, Some(c), nr);
                        lemma_foot_live(s2, n.left, b.left);
                        assert(foot(s2, n.left, b.left).disjoint(foot(s2, Some(c), nr))) by {
                            assert forall|j: usize| #[trigger] foot(s2, Some(c), nr).contains(j) implies !foot(
                                s2,
                                n.left,
                                b.left,
                            ).contains(j) by {
                                assert(foot(s1, n.left, b.left).contains(j) ==> s1[j as int] is Some);
                            }
                        }
                    }
                    let y = if n.aux.color == NodeColor::Black {
                        fixed_right_at(a, n.left, Ghost(b.left), n.key, n.value, c, Ghost(nr))
                    } else {
                        rb_make_at(a, NodeColor::Red, n.key, n.value, n.left, Ghost(b.left), Some(c), Ghost(nr))
                    };
                    proof {
                        let s3 = a.nodes@;
                        assert(foot(s2, n.left, b.left) + foot(s2, Some(c), nr) =~= foot(s2, Some(c), nr) + foot(
                            s2,
                            n.left,
                            b.left,
                        ));
                        assert(u =~= set![x] + foot(s1, n.right, rt) + foot(s2, n.left, b.left));
                        lemma_step_frame(s0, s1, s2, s3, x, u, foot(s1, n.right, rt), foot(s2, Some(c), nr), foot(
                            s2,
                            n.left,
                            b.left,
                        ), foot(s3, Some(y), Some(rb_put(t, key, value))));
                    }
                    (y, found)
                },
            }
        },
    }
}

/// A read-only view of one node of a [`RedBlackTree`].
pub struct RbNodeView<'a, K: TreeKey, V> {
    at: ARef<'a, K, V, RbAux>,
}

/// A position at one entry of a [`RedBlackTree`], able to step to its neighbours in key
/// order.
pub struct RbCursor<'a, K: TreeKey, V> {
    at: ARef<'a, K, V, RbAux>,
}

/// Walks the entries of a [`RedBlackTree`] in increasing key order.
pub struct RbIter<'a, K: TreeKey, V> {
    next: Option<RbCursor<'a, K, V>>,
}

impl<'a, K: TreeKey, V> Clone for RbNodeView<'a, K, V> {
    fn clone(&self) -> (r: Self)
        ensures
            r == *self,
    {
        RbNodeView { at: self.at.copy() }
    }
}

impl<'a, K: TreeKey, V> Clone for RbCursor<'a, K, V> {
    fn clone(&self) -> (r: Self)
        ensures
            r == *self,
    {
        RbCursor { at: self.at.copy() }
    }
}

impl<'a, K: TreeKey, V> RbNodeView<'a, K, V> {
    /// The view points into an ordered tree.
    pub closed spec fn wf(&self) -> bool {
        self.at.wf()
    }

    /// The node this view shows.
    pub closed spec fn node(&self) -> Node<K, V, RbAux> {
        self.at.node@
    }

    /// The root link of the tree the view belongs to.
    pub closed spec fn tree_link(&self) -> Option<Box<Node<K, V, RbAux>>> {
        self.at.root_t@
    }

    /// The key of the node.
    pub fn key(&self) -> (r: &'a K)
        ensures
            *r == self.node().key,
    {
        self.at.key()
    }

    /// The value of the node.
    pub fn value(&self) -> (r: &'a V)
        ensures
            *r == self.node().value,
    {
        self.at.value()
    }

    /// The colour of the node.
    pub fn color(&self) -> (r: NodeColor)
        ensures
            r == self.node().aux.color,
    {
        self.at.aux().color
    }

    /// The left child.
    pub fn left(&self) -> (r: Option<Self>)
        requires
            self.wf(),
        ensures
            match self.node().left {
                None => r is None,
                Some(l) => r matches Some(c) && c.node() == *l && c.tree_link() == self.tree_link()
                    && c.wf(),
            },
    {
        match self.at.left() {
            None => None,
            Some(p) => Some(RbNodeView { at: p }),
        }
    }

    /// The right child.
    pub fn right(&self) -> (r: Option<Self>)
        requires
            self.wf(),
        ensures
            match self.node().right {
                None => r is None,
                Some(c0) => r matches Some(c) && c.node() == *c0 && c.tree_link()
                    == self.tree_link() && c.wf(),
            },
    {
        match self.at.right() {
            None => None,
            Some(p) => Some(RbNodeView { at: p }),
        }
    }

    /// The parent node; `None` exactly at the root.
    pub fn parent(&self) -> (r: Option<Self>)
        requires
            self.wf(),
        ensures
            r is None <==> self.tree_link() == Some(Box::new(self.node())),
            r matches Some(p) ==> p.wf() && p.tree_link() == self.tree_link() && (p.node().left
                == Some(Box::new(self.node())) || p.node().right == Some(Box::new(self.node()))),
    {
        match self.at.parent() {
            None => None,
            Some(p) => Some(RbNodeView { at: p }),
        }
    }
}

impl<'a, K: TreeKey, V> RbCursor<'a, K, V> {
    /// The cursor points into an ordered tree.
    pub closed spec fn wf(&self) -> bool {
        self.at.wf()
    }

    /// The entries of the tree the cursor belongs to.
    pub closed spec fn tree_map(&self) -> Map<K, V> {
        self.at.tree_map()
    }

    /// The root link of the tree the cursor belongs to.
    pub closed spec fn tree_link(&self) -> Option<Box<Node<K, V, RbAux>>> {
        self.at.root_t@
    }

    /// The node the cursor is at.
    pub closed spec fn node_at(&self) -> Node<K, V, RbAux> {
        self.at.node@
    }

    /// The key the cursor is at.
    pub closed spec fn key_at(&self) -> K {
        self.at.node@.key
    }

    /// The value the cursor is at.
    pub closed spec fn value_at(&self) -> V {
        self.at.node@.value
    }

    /// The key at the cursor.
    pub fn key(&self) -> (r: &'a K)
        ensures
            *r == self.key_at(),
    {
        self.at.key()
    }

    /// The value at the cursor.
    pub fn value(&self) -> (r: &'a V)
        ensures
            *r == self.value_at(),
    {
        self.at.value()
    }

    /// The node the cursor is at, as a node view.
    pub fn node_view(&self) -> (r: RbNodeView<'a, K, V>)
        requires
            self.wf(),
        ensures
            r.wf(),
            r.node().key == self.key_at(),
            r.node().value == self.value_at(),
            r.node() == self.node_at(),
            r.tree_link() == self.tree_link(),
            map_of(r.tree_link()) == self.tree_map(),
    {
        RbNodeView { at: self.at.copy() }
    }

    /// The cursor at the next smaller key, if any.
    pub fn predecessor(&self) -> (r: Option<Self>)
        requires
            self.wf(),
        ensures
            r is Some <==> has_key_below(self.tree_map(), self.key_at()),
            r matches Some(c) ==> c.wf() && c.tree_map() == self.tree_map() && c.tree_link()
                == self.tree_link() && is_prev_key(
                self.tree_map(),
                self.key_at(),
                c.key_at(),
            ) && c.value_at() == self.tree_map()[c.key_at()],
    {
        match self.at.predecessor() {
            None => None,
            Some(p) => Some(RbCursor { at: p }),
        }
    }

    /// The cursor at the next larger key, if any.
    pub fn successor(&self) -> (r: Option<Self>)
        requires
            self.wf(),
        ensures
            r is Some <==> has_key_above(self.tree_map(), self.key_at()),
            r matches Some(c) ==> c.wf() && c.tree_map() == self.tree_map() && c.tree_link()
                == self.tree_link() && is_next_key(
                self.tree_map(),
                self.key_at(),
                c.key_at(),
            ) && c.value_at() == self.tree_map()[c.key_at()],
    {
        match self.at.successor() {
            None => None,
            Some(p) => Some(RbCursor { at: p }),
        }
    }
}

impl<'a, K: TreeKey + Clone, V: Clone> RbIter<'a, K, V> {
    /// The cursor of the entry the next call returns.
    pub closed spec fn upcoming(&self) -> Option<RbCursor<'a, K, V>> {
        self.next
    }

    /// Returns clones of the current entry and moves to the next larger key.
    pub fn next(&mut self) -> (r: Option<(K, V)>)
        requires
            old(self).upcoming() matches Some(c) ==> c.wf(),
        ensures
            match old(self).upcoming() {
                None => r is None && final(self).upcoming() is None,
                Some(c) => {
                    &&& r matches Some(e) && cloned(c.key_at(), e.0) && cloned(c.value_at(), e.1)
                    &&& final(self).upcoming() is Some <==> has_key_above(c.tree_map(), c.key_at())
                    &&& final(self).upcoming() matches Some(d) ==> d.wf() && d.tree_map()
                        == c.tree_map() && is_next_key(c.tree_map(), c.key_at(), d.key_at())
                        && d.value_at() == c.tree_map()[d.key_at()]
                },
            },
    {
        match self.next.take() {
            None => None,
            Some(c) => {
                let item = (c.key().clone(), c.value().clone());
                self.next = c.successor();
                Some(item)
            },
        }
    }
}

/// A red-black tree mapping keys to values, with subtree sizes for rank queries.
pub struct RedBlackTree<K: TreeKey, V> {
    tree: ArenaTree<K, V, RbAux>,
}

impl<K: TreeKey, V> View for RedBlackTree<K, V> {
    type V = Map<K, V>;

    closed spec fn view(&self) -> Map<K, V> {
        self.tree@
    }
}

impl<K: TreeKey, V> RedBlackTree<K, V> {
    /// The tree is ordered, counts its entries, stores correct subtree sizes and keeps the red-black rules with a black root.
    pub closed spec fn wf(&self) -> bool {
        self.tree.wf()
    }

    /// The root link of the tree.
    pub closed spec fn shape(&self) -> Option<Box<Node<K, V, RbAux>>> {
        self.tree.link()
    }

    /// What holds of every well-formed tree: its nodes are ordered by key and the view is
    /// the map of its nodes.
    pub proof fn lemma_shape(&self)
        requires
            self.wf(),
        ensures
            ordered(self.shape()),
            self@ == map_of(self.shape()),
            self@.dom().finite(),
            rb_ok(self.shape()),
    {
        self.tree.lemma_inv();
    }

    /// Number of entries, as stored at the root.
    pub fn size(&self) -> (r: usize)
        requires
            self.wf(),
        ensures
            r == self@.len(),
    {
        self.tree.rb_size()
    }

    /// The cursor at the entry of the given rank in increasing key order (rank 0 is the
    /// smallest key), if the tree has more than `rank` entries.
    pub fn select(&self, rank: usize) -> (r: Option<RbCursor<'_, K, V>>)
        requires
            self.wf(),
        ensures
            r is Some <==> rank < self@.len(),
            r matches Some(c) ==> c.wf() && c.tree_map() == self@ && c.tree_link() == self.shape()
                && c.key_at() == seq_of(self.shape())[rank as int].0 && c.value_at() == seq_of(
                self.shape(),
            )[rank as int].1,
    {
        match self.tree.rb_select(rank) {
            None => None,
            Some(p) => Some(RbCursor { at: p }),
        }
    }

    /// An empty tree.
    pub fn new() -> (r: Self)
        ensures
            r.wf(),
            r@ == Map::<K, V>::empty(),
    {
        RedBlackTree { tree: ArenaTree::new() }
    }

    /// Every node of a valid red-black tree keeps the rules in its own subtree: the keys on
    /// its left are smaller than its key and those on its right larger, a red node has no red
    /// child, and its two subtrees count the same number of black nodes down their leftmost
    /// paths (so, as the rule holds at every node below, down every path).
    pub proof fn lemma_node_rules(&self, n: RbNodeView<'_, K, V>)
        requires
            self.wf(),
            n.wf(),
            n.tree_link() == self.shape(),
        ensures
            ordered(Some(Box::new(n.node()))),
            rb_inv(Some(Box::new(n.node()))),
    {
        self.lemma_shape();
        lemma_subtree_facts(n.node(), n.tree_link());
        lemma_rb_inv_subtree(n.node(), n.tree_link());
    }

    /// A key names one node: two views into the tree that show the same key show the same
    /// node.
    pub proof fn lemma_one_node_per_key(&self, a: RbNodeView<'_, K, V>, b: RbNodeView<'_, K, V>)
        requires
            self.wf(),
            a.wf(),
            b.wf(),
            a.tree_link() == self.shape(),
            b.tree_link() == self.shape(),
            a.node().key == b.node().key,
        ensures
            a.node() == b.node(),
    {
        lemma_subtree_unique(a.node(), b.node(), self.shape());
    }

    /// A node has one parent: two views into the tree whose nodes both have the node of `c`
    /// as a child show the same node.
    pub proof fn lemma_one_parent(&self, a: RbNodeView<'_, K, V>, b: RbNodeView<'_, K, V>, c: RbNodeView<'_, K, V>)
        requires
            self.wf(),
            a.wf(),
            b.wf(),
            a.tree_link() == self.shape(),
            b.tree_link() == self.shape(),
            is_child(c.node(), a.node()),
            is_child(c.node(), b.node()),
        ensures
            a.node() == b.node(),
    {
        lemma_parent_unique(a.node(), b.node(), c.node(), self.shape());
    }

    /// A child is never the root: the node of `c`, a child of the node of `n`, is not the tree's
    /// root, so the view of it has a parent.
    pub proof fn lemma_child_not_root(&self, n: RbNodeView<'_, K, V>, c: RbNodeView<'_, K, V>)
        requires
            self.wf(),
            n.wf(),
            n.tree_link() == self.shape(),
            is_child(c.node(), n.node()),
        ensures
            self.shape() != Some(Box::new(c.node())),
    {
        lemma_child_smaller(c.node(), n.node(), self.shape());
    }

    /// The root node, if the tree is not empty.
    pub fn root_view(&self) -> (r: Option<RbNodeView<'_, K, V>>)
        requires
            self.wf(),
        ensures
            r is Some <==> self@.len() > 0,
            r matches Some(v) ==> v.wf() && v.tree_link() == self.shape() && self.shape() == Some(
                Box::new(v.node()),
            ),
    {
        match self.tree.root_ref() {
            None => None,
            Some(p) => Some(RbNodeView { at: p }),
        }
    }

    /// Number of entries.
    pub fn len(&self) -> (r: usize)
        requires
            self.wf(),
        ensures
            r == self@.len(),
    {
        self.tree.len()
    }

    /// Whether the tree holds no entry.
    pub fn is_empty(&self) -> (r: bool)
        requires
            self.wf(),
        ensures
            r == (self@.len() == 0),
    {
        self.tree.is_empty()
    }

    /// Removes every entry.
    pub fn clear(&mut self)
        ensures
            final(self).wf(),
            final(self)@ == Map::<K, V>::empty(),
    {
        self.tree.clear()
    }

    /// The cursor at `key`, if present.
    pub fn cursor(&self, key: &K) -> (r: Option<RbCursor<'_, K, V>>)
        requires
            self.wf(),
        ensures
            r is Some <==> self@.dom().contains(*key),
            r matches Some(c) ==> c.wf() && c.tree_map() == self@ && c.tree_link() == self.shape() && c.key_at() == *key
                && c.value_at() == self@[*key],
    {
        match self.tree.cursor(key) {
            None => None,
            Some(p) => Some(RbCursor { at: p }),
        }
    }

    /// Whether `key` is present.
    pub fn contains_key(&self, key: &K) -> (r: bool)
        requires
            self.wf(),
        ensures
            r == self@.dom().contains(*key),
    {
        self.tree.contains_key(key)
    }

    /// The cursor at the smallest key, if the tree is not empty.
    pub fn min_cursor(&self) -> (r: Option<RbCursor<'_, K, V>>)
        requires
            self.wf(),
        ensures
            r is Some <==> self@.len() > 0,
            r matches Some(c) ==> c.wf() && c.tree_map() == self@ && c.tree_link() == self.shape() && is_min_key(self@, c.key_at())
                && c.value_at() == self@[c.key_at()],
    {
        match self.tree.min_cursor() {
            None => None,
            Some(p) => Some(RbCursor { at: p }),
        }
    }

    /// The cursor at the largest key, if the tree is not empty.
    pub fn max_cursor(&self) -> (r: Option<RbCursor<'_, K, V>>)
        requires
            self.wf(),
        ensures
            r is Some <==> self@.len() > 0,
            r matches Some(c) ==> c.wf() && c.tree_map() == self@ && c.tree_link() == self.shape() && is_max_key(self@, c.key_at())
                && c.value_at() == self@[c.key_at()],
    {
        match self.tree.max_cursor() {
            None => None,
            Some(p) => Some(RbCursor { at: p }),
        }
    }

    /// Adds `key -> value`, or replaces the value of an equal key; returns the replaced value.
    pub fn insert_entry(&mut self, key: K, value: V) -> (r: Option<V>)
        requires
            old(self).wf(),
            old(self)@.len() < usize::MAX,
        ensures
            final(self).wf(),
            final(self)@ == old(self)@.insert(key, value),
            final(self).shape() == rb_inserted(old(self).shape(), key, value),
            r == (if old(self)@.dom().contains(key) {
                Some(old(self)@[key])
            } else {
                None::<V>
            }),
    {
        let ghost t0 = self.tree.shape@;
        proof {
            self.tree.lemma_inv();
            lemma_rb_put(t0, key, value);
        }
        let root = self.tree.root;
        let (x, r) = rb_put_at(&mut self.tree.arena, root, Ghost(t0), key, value);
        let y = blacken_at(&mut self.tree.arena, x, Ghost(Some(rb_put(t0, key, value))));
        self.tree.root = Some(y);
        if r.is_none() {
            self.tree.len = self.tree.len + 1;
        }
        self.tree.shape = Ghost(rb_inserted(t0, key, value));
        proof {
            let p = rb_put(t0, key, value);
            let q = rb_inserted(t0, key, value);
            assert(rb_inv(q));
            assert(sizes_ok(q));
            assert(map_of(q) =~= map_of(Some(p)));
        }
        r
    }

    /// Removes `key`; returns its value if it was present.
    pub fn remove_key(&mut self, key: &K) -> (r: Option<V>)
        requires
            old(self).wf(),
        ensures
            final(self).wf(),
            final(self)@ == old(self)@.remove(*key),
            final(self).shape() == rb_removed(old(self).shape(), *key),
            !old(self)@.dom().contains(*key) ==> final(self).shape() == old(self).shape(),
            r == (if old(self)@.dom().contains(*key) {
                Some(old(self)@[*key])
            } else {
                None::<V>
            }),
    {
        let mut t = self.tree.take_all();
        let r = t.rb_remove(key);
        self.tree.put_all(t);
        r
    }

    /// Walks the entries in increasing key order.
    pub fn iter(&self) -> (r: RbIter<'_, K, V>) where K: Clone, V: Clone
        requires
            self.wf(),
        ensures
            r.upcoming() is Some <==> self@.len() > 0,
            r.upcoming() matches Some(c) ==> c.wf() && c.tree_map() == self@ && is_min_key(
                self@,
                c.key_at(),
            ) && c.value_at() == self@[c.key_at()],
    {
        RbIter { next: self.min_cursor() }
    }

    /// A tree holding `entries`, inserted in order: a later entry replaces an earlier one
    /// with an equal key.
    pub fn from_iter(entries: Vec<(K, V)>) -> (r: Self)
        ensures
            r.wf(),
            r@ == entries_to_map(entries@),
    {
        let mut tree = Self::new();
        let ghost all = entries@;
        let n = entries.len();
        proof {
            assert(all.len() == n);
        }
        for e in it: entries.into_iter()
            invariant
                it.seq() == all,
                all.len() <= usize::MAX,
                tree.wf(),
                tree@ == entries_to_map(all.take(it.index())),
        {
            proof {
                lemma_entries_to_map_len(all.take(it.index()));
                assert(all.take(it.index() + 1).drop_last() =~= all.take(it.index()));
            }
            let (k, v) = e;
            tree.insert_entry(k, v);
        }
        proof {
            assert(all.take(all.len() as int) =~= all);
        }
        tree
    }

    /// Same as [`Self::insert_entry`].
    pub fn insert(&mut self, key: K, value: V) -> (r: Option<V>)
        requires
            old(self).wf(),
            old(self)@.len() < usize::MAX,
        ensures
            final(self).wf(),
            final(self)@ == old(self)@.insert(key, value),
            final(self).shape() == rb_inserted(old(self).shape(), key, value),
            r == (if old(self)@.dom().contains(key) {
                Some(old(self)@[key])
            } else {
                None::<V>
            }),
    {
        self.insert_entry(key, value)
    }

    /// Same as [`Self::remove_key`].
    pub fn remove(&mut self, key: &K) -> (r: Option<V>)
        requires
            old(self).wf(),
        ensures
            final(self).wf(),
            final(self)@ == old(self)@.remove(*key),
            final(self).shape() == rb_removed(old(self).shape(), *key),
            !old(self)@.dom().contains(*key) ==> final(self).shape() == old(self).shape(),
            r == (if old(self)@.dom().contains(*key) {
                Some(old(self)@[*key])
            } else {
                None::<V>
            }),
    {
        self.remove_key(key)
    }

    /// The node view of a cursor of this tree.
    pub fn view_from_cursor<'a>(&'a self, cursor: &RbCursor<'a, K, V>) -> (r: RbNodeView<
        'a,
        K,
        V,
    >)
        requires
            cursor.wf(),
        ensures
            r.wf(),
            r.node().key == cursor.key_at(),
            map_of(r.tree_link()) == cursor.tree_map(),
    {
        cursor.node_view()
    }

    /// Same as [`Self::min_cursor`].
    pub fn first_cursor(&self) -> (r: Option<RbCursor<'_, K, V>>)
        requires
            self.wf(),
        ensures
            r is Some <==> self@.len() > 0,
            r matches Some(c) ==> c.wf() && c.tree_map() == self@ && c.tree_link() == self.shape() && is_min_key(self@, c.key_at()),
    {
        self.min_cursor()
    }

    /// Same as [`Self::max_cursor`].
    pub fn last_cursor(&self) -> (r: Option<RbCursor<'_, K, V>>)
        requires
            self.wf(),
        ensures
            r is Some <==> self@.len() > 0,
            r matches Some(c) ==> c.wf() && c.tree_map() == self@ && c.tree_link() == self.shape() && is_max_key(self@, c.key_at()),
    {
        self.max_cursor()
    }

    /// Number of nodes on the longest root-to-leaf path.
    pub fn height(&self) -> (r: usize)
        requires
            self.wf(),
        ensures
            r == height_of(self.shape()),
    {
        self.tree.height()
    }

    /// Number of nodes, which is the number of entries.
    pub fn node_count(&self) -> (r: usize)
        requires
            self.wf(),
        ensures
            r == self@.len(),
    {
        self.tree.len()
    }

    /// Height of the subtree below the cursor's node.
    pub fn node_height(&self, cursor: &RbCursor<'_, K, V>) -> (r: usize)
        requires
            self.wf(),
            cursor.wf(),
            cursor.tree_link() == self.shape(),
        ensures
            r == height_of(Some(Box::new(cursor.node_at()))),
    {
        self.tree.node_height(&cursor.at)
    }
}

} // verus!
