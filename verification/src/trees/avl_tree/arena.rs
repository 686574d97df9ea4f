//! AVL tree: the `arena` variant. Its nodes sit in an index-linked arena with a free list of
//! reusable slots (see `arena_store`); the arena holds the same owned-node model that the
//! other variants state their contracts over. Insertion and removal, rotations included, work
//! over the slots: nodes leave their slots with `take_node` and come back with `alloc_node`.
use vstd::prelude::*;

use crate::key::TreeKey;
use crate::trees::arena_tree::{ARef, ArenaTree};
use crate::trees::node::{
    entries_to_map, lemma_entries_to_map_len,
    has_key_above, has_key_below, height_of, is_max_key, is_min_key, is_next_key, is_prev_key,
    is_child, lemma_child_smaller, lemma_map_facts, lemma_map_finite_size, lemma_height_le_size, size_of, lemma_parent_unique, lemma_subtree_facts, lemma_subtree_unique, map_of, ordered, Node,
};
use crate::key::KeyOrder;
use crate::trees::avl_tree::engine::{all_above, all_below, avl_pop_min, found_value, lemma_avl_del, lemma_avl_pop_min, lemma_avl_put, avl_balanced, avl_del, avl_node, avl_ok, avl_put, lemma_avl_ok_subtree};
use crate::trees::arena_store::{foot, holds, keeps, fresh, lemma_foot_live, lemma_keeps_holds, lemma_keeps_trans, lemma_kept_fresh, lemma_step_frame, Arena};

verus! {

/// The root of `t`, if any, stores the height of `t`.
pub open spec fn height_stored<K, V>(t: Option<Box<Node<K, V, usize>>>) -> bool {
    t matches Some(b) ==> b.aux == height_of(t)
}

/// The height stored in slot `i`, the root of the subtree `t` (0 when there is none).
fn slot_height<K, V>(a: &Arena<K, V, usize>, i: Option<usize>, Ghost(t): Ghost<Option<Box<Node<K, V, usize>>>>) -> (h: usize)
    requires
        holds(a.nodes@, i, t),
        height_stored(t),
    ensures
        h == height_of(t),
{
    match i {
        None => 0,
        Some(x) => a.node(x).aux,
    }
}

/// Stores the node over the subtrees at `l` and `r` in a fresh slot, with its height.
fn make_at<K, V>(
    a: &mut Arena<K, V, usize>,
    key: K,
    value: V,
    l: Option<usize>,
    Ghost(lt): Ghost<Option<Box<Node<K, V, usize>>>>,
    r: Option<usize>,
    Ghost(rt): Ghost<Option<Box<Node<K, V, usize>>>>,
) -> (x: usize)
    requires
        old(a).ok(),
        holds(old(a).nodes@, l, lt),
        holds(old(a).nodes@, r, rt),
        foot(old(a).nodes@, l, lt).disjoint(foot(old(a).nodes@, r, rt)),
        height_stored(lt),
        height_stored(rt),
        size_of(lt) + size_of(rt) < usize::MAX,
    ensures
        final(a).ok(),
        holds(final(a).nodes@, Some(x), Some(avl_node(key, value, lt, rt))),
        foot(final(a).nodes@, Some(x), Some(avl_node(key, value, lt, rt))) == set![x] + foot(
            old(a).nodes@,
            l,
            lt,
        ) + foot(old(a).nodes@, r, rt),
        keeps(old(a).nodes@, final(a).nodes@, Set::empty()),
        x >= old(a).nodes@.len() || old(a).nodes@[x as int] is None,
        height_stored(Some(avl_node(key, value, lt, rt))),
{
    proof {
        lemma_height_le_size(lt);
        lemma_height_le_size(rt);
    }
    let hl = slot_height(a, l, Ghost(lt));
    let hr = slot_height(a, r, Ghost(rt));
    let h = if hl >= hr {
        hl + 1
    } else {
        hr + 1
    };
    proof {
        assert(avl_node(key, value, lt, rt) == Box::new(Node { key, value, aux: h, left: lt, right: rt }));
    }
    a.link_node(key, value, h, l, Ghost(lt), r, Ghost(rt))
}

/// Rebalances a node whose left subtree is two levels taller than its right one: a right
/// rotation, after a left rotation of the left subtree when its right side is the taller one.
/// The slots of the two subtrees are reused or left free; every other occupied slot stays.
#[verifier::spinoff_prover]
#[verifier::rlimit(60)]
fn fix_left_heavy<K: TreeKey, V>(
    a: &mut Arena<K, V, usize>,
    key: K,
    value: V,
    l: usize,
    Ghost(lt): Ghost<Option<Box<Node<K, V, usize>>>>,
    r: Option<usize>,
    Ghost(rt): Ghost<Option<Box<Node<K, V, usize>>>>,
) -> (x: usize)
    requires
        old(a).ok(),
        holds(old(a).nodes@, Some(l), lt),
        holds(old(a).nodes@, r, rt),
        foot(old(a).nodes@, Some(l), lt).disjoint(foot(old(a).nodes@, r, rt)),
        avl_ok(lt),
        avl_ok(rt),
        height_of(lt) > height_of(rt) + 1,
        size_of(lt) + size_of(rt) < usize::MAX,
    ensures
        final(a).ok(),
        holds(final(a).nodes@, Some(x), Some(avl_balanced(key, value, lt, rt))),
        keeps(old(a).nodes@, final(a).nodes@, foot(old(a).nodes@, Some(l), lt) + foot(old(a).nodes@, r, rt)),
        fresh(
            old(a).nodes@,
            foot(final(a).nodes@, Some(x), Some(avl_balanced(key, value, lt, rt))),
            foot(old(a).nodes@, Some(l), lt) + foot(old(a).nodes@, r, rt),
        ),
{
    let ghost s0 = a.nodes@;
    proof {
        assert(s0.len() == a.nodes.len());
    }
    let ghost lb = lt->0;
    let ghost ll = lb.left;
    let ghost lr = lb.right;
    let ghost u = foot(s0, Some(l), lt) + foot(s0, r, rt);
    proof {
        lemma_foot_live(s0, Some(l), lt);
        lemma_foot_live(s0, r, rt);
    }
    let n1 = a.unlink_node(l, Ghost(lt));
    let ghost s1 = a.nodes@;
    proof {
        assert(keeps(s0, s1, set![l]));
        lemma_keeps_holds(s0, s1, set![l], r, rt);
        lemma_foot_live(s1, n1.left, ll);
        lemma_foot_live(s1, n1.right, lr);
        lemma_foot_live(s1, r, rt);
        assert(avl_ok(ll) && avl_ok(lr));
        assert(height_stored(ll) && height_stored(lr));
    }
    let hll = slot_height(a, n1.left, Ghost(ll));
    let hlr = slot_height(a, n1.right, Ghost(lr));
    if hll >= hlr {
        let x1 = make_at(a, key, value, n1.right, Ghost(lr), r, Ghost(rt));
        let ghost s2 = a.nodes@;
        let ghost it = Some(avl_node(key, value, lr, rt));
        proof {
            lemma_keeps_holds(s1, s2, Set::empty(), n1.left, ll);
            lemma_foot_live(s2, Some(x1), it);
            assert(!foot(s1, n1.left, ll).contains(x1));
            assert(foot(s2, n1.left, ll).disjoint(foot(s2, Some(x1), it)));
        }
        let x2 = make_at(a, n1.key, n1.value, n1.left, Ghost(ll), Some(x1), Ghost(it));
        let ghost s3 = a.nodes@;
        proof {
            let res = Some(avl_balanced(key, value, lt, rt));
            assert(res == Some(avl_node(lb.key, lb.value, ll, it)));
            lemma_keeps_trans(s0, s1, s2, set![l], Set::empty(), u);
            lemma_keeps_trans(s0, s2, s3, u, Set::empty(), u);
            lemma_kept_fresh(s0, s1, u, x1);
            lemma_kept_fresh(s0, s2, u, x2);
            assert forall|j: usize| #[trigger] foot(s3, Some(x2), res).contains(j) implies u.contains(j)
                || j >= s0.len() || s0[j as int] is None by {
                if j != x2 && j != x1 {
                    assert(foot(s1, n1.left, ll).contains(j) || foot(s1, n1.right, lr).contains(j) || foot(
                        s1,
                        r,
                        rt,
                    ).contains(j));
                }
            }
        }
        x2
    } else {
        let mx = n1.right.unwrap();
        let ghost mb = lr->0;
        let ghost ml = mb.left;
        let ghost mr = mb.right;
        let n2 = a.unlink_node(mx, Ghost(lr));
        let ghost s2 = a.nodes@;
        proof {
            assert(keeps(s1, s2, set![mx]));
            lemma_keeps_holds(s1, s2, set![mx], n1.left, ll);
            lemma_keeps_holds(s1, s2, set![mx], r, rt);
            lemma_foot_live(s2, n2.left, ml);
            lemma_foot_live(s2, n2.right, mr);
            assert(avl_ok(lr));
            assert(avl_ok(ml) && avl_ok(mr));
            assert(height_stored(ml) && height_stored(mr));
            lemma_height_le_size(lr);
        }
        let x1 = make_at(a, n1.key, n1.value, n1.left, Ghost(ll), n2.left, Ghost(ml));
        let ghost s3 = a.nodes@;
        let ghost at1 = Some(avl_node(lb.key, lb.value, ll, ml));
        proof {
            lemma_keeps_holds(s2, s3, Set::empty(), n2.right, mr);
            lemma_keeps_holds(s2, s3, Set::empty(), r, rt);
        }
        let x2 = make_at(a, key, value, n2.right, Ghost(mr), r, Ghost(rt));
        let ghost s4 = a.nodes@;
        let ghost at2 = Some(avl_node(key, value, mr, rt));
        proof {
            lemma_foot_live(s3, Some(x1), at1);
            lemma_keeps_holds(s3, s4, Set::empty(), Some(x1), at1);
            lemma_foot_live(s4, Some(x2), at2);
            assert(!foot(s3, Some(x1), at1).contains(x2));
            assert(foot(s4, Some(x1), at1).disjoint(foot(s4, Some(x2), at2)));
        }
        let x3 = make_at(a, n2.key, n2.value, Some(x1), Ghost(at1), Some(x2), Ghost(at2));
        let ghost s5 = a.nodes@;
        proof {
            let res = Some(avl_balanced(key, value, lt, rt));
            assert(res == Some(avl_node(mb.key, mb.value, at1, at2)));
            lemma_keeps_trans(s0, s1, s2, set![l], set![mx], u);
            lemma_keeps_trans(s0, s2, s3, u, Set::empty(), u);
            lemma_keeps_trans(s0, s3, s4, u, Set::empty(), u);
            lemma_keeps_trans(s0, s4, s5, u, Set::empty(), u);
            lemma_kept_fresh(s0, s2, u, x1);
            lemma_kept_fresh(s0, s3, u, x2);
            lemma_kept_fresh(s0, s4, u, x3);
            assert forall|j: usize| #[trigger] foot(s5, Some(x3), res).contains(j) implies u.contains(j)
                || j >= s0.len() || s0[j as int] is None by {
                if j != x3 && j != x2 && j != x1 {
                    assert(foot(s1, n1.left, ll).contains(j) || foot(s1, n1.right, lr).contains(j) || foot(
                        s1,
                        r,
                        rt,
                    ).contains(j));
                }
            }
        }
        x3
    }
}

/// Rebalances a node whose right subtree is two levels taller than its left one: a left
/// rotation, after a right rotation of the right subtree when its left side is the taller one.
/// The slots of the two subtrees are reused or left free; every other occupied slot stays.
#[verifier::spinoff_prover]
#[verifier::rlimit(60)]
fn fix_right_heavy<K: TreeKey, V>(
    a: &mut Arena<K, V, usize>,
    key: K,
    value: V,
    l: Option<usize>,
    Ghost(lt): Ghost<Option<Box<Node<K, V, usize>>>>,
    r: usize,
    Ghost(rt): Ghost<Option<Box<Node<K, V, usize>>>>,
) -> (x: usize)
    requires
        old(a).ok(),
        holds(old(a).nodes@, l, lt),
        holds(old(a).nodes@, Some(r), rt),
        foot(old(a).nodes@, l, lt).disjoint(foot(old(a).nodes@, Some(r), rt)),
        avl_ok(lt),
        avl_ok(rt),
        height_of(rt) > height_of(lt) + 1,
        size_of(lt) + size_of(rt) < usize::MAX,
    ensures
        final(a).ok(),
        holds(final(a).nodes@, Some(x), Some(avl_balanced(key, value, lt, rt))),
        keeps(old(a).nodes@, final(a).nodes@, foot(old(a).nodes@, l, lt) + foot(old(a).nodes@, Some(r), rt)),
        fresh(
            old(a).nodes@,
            foot(final(a).nodes@, Some(x), Some(avl_balanced(key, value, lt, rt))),
            foot(old(a).nodes@, l, lt) + foot(old(a).nodes@, Some(r), rt),
        ),
{
    let ghost s0 = a.nodes@;
    proof {
        assert(s0.len() == a.nodes.len());
    }
    let ghost rb = rt->0;
    let ghost rl = rb.left;
    let ghost rr = rb.right;
    let ghost u = foot(s0, l, lt) + foot(s0, Some(r), rt);
    proof {
        lemma_foot_live(s0, Some(r), rt);
        lemma_foot_live(s0, l, lt);
    }
    let n1 = a.unlink_node(r, Ghost(rt));
    let ghost s1 = a.nodes@;
    proof {
        assert(keeps(s0, s1, set![r]));
        lemma_keeps_holds(s0, s1, set![r], l, lt);
        lemma_foot_live(s1, n1.left, rl);
        lemma_foot_live(s1, n1.right, rr);
        lemma_foot_live(s1, l, lt);
        assert(avl_ok(rl) && avl_ok(rr));
        assert(height_stored(rl) && height_stored(rr));
    }
    let hrl = slot_height(a, n1.left, Ghost(rl));
    let hrr = slot_height(a, n1.right, Ghost(rr));
    if hrr >= hrl {
        let x1 = make_at(a, key, value, l, Ghost(lt), n1.left, Ghost(rl));
        let ghost s2 = a.nodes@;
        let ghost it = Some(avl_node(key, value, lt, rl));
        proof {
            lemma_keeps_holds(s1, s2, Set::empty(), n1.right, rr);
            lemma_foot_live(s2, Some(x1), it);
            assert(!foot(s1, n1.right, rr).contains(x1));
            assert(foot(s2, Some(x1), it).disjoint(foot(s2, n1.right, rr)));
        }
        let x2 = make_at(a, n1.key, n1.value, Some(x1), Ghost(it), n1.right, Ghost(rr));
        let ghost s3 = a.nodes@;
        proof {
            let res = Some(avl_balanced(key, value, lt, rt));
            assert(res == Some(avl_node(rb.key, rb.value, it, rr)));
            lemma_keeps_trans(s0, s1, s2, set![r], Set::empty(), u);
            lemma_keeps_trans(s0, s2, s3, u, Set::empty(), u);
            lemma_kept_fresh(s0, s1, u, x1);
            lemma_kept_fresh(s0, s2, u, x2);
            assert forall|j: usize| #[trigger] foot(s3, Some(x2), res).contains(j) implies u.contains(j)
                || j >= s0.len() || s0[j as int] is None by {
                if j != x2 && j != x1 {
                    assert(foot(s1, n1.left, rl).contains(j) || foot(s1, n1.right, rr).contains(j) || foot(
                        s1,
                        l,
                        lt,
                    ).contains(j));
                }
            }
        }
        x2
    } else {
        let mx = n1.left.unwrap();
        let ghost mb = rl->0;
        let ghost ml = mb.left;
        let ghost mr = mb.right;
        let n2 = a.unlink_node(mx, Ghost(rl));
        let ghost s2 = a.nodes@;
        proof {
            assert(keeps(s1, s2, set![mx]));
            lemma_keeps_holds(s1, s2, set![mx], n1.right, rr);
            lemma_keeps_holds(s1, s2, set![mx], l, lt);
            lemma_foot_live(s2, n2.left, ml);
            lemma_foot_live(s2, n2.right, mr);
            assert(avl_ok(rl));
            assert(avl_ok(ml) && avl_ok(mr));
            assert(height_stored(ml) && height_stored(mr));
            lemma_height_le_size(rl);
        }
        let x1 = make_at(a, key, value, l, Ghost(lt), n2.left, Ghost(ml));
        let ghost s3 = a.nodes@;
        let ghost at1 = Some(avl_node(key, value, lt, ml));
        proof {
            lemma_keeps_holds(s2, s3, Set::empty(), n2.right, mr);
            lemma_keeps_holds(s2, s3, Set::empty(), n1.right, rr);
        }
        let x2 = make_at(a, n1.key, n1.value, n2.right, Ghost(mr), n1.right, Ghost(rr));
        let ghost s4 = a.nodes@;
        let ghost at2 = Some(avl_node(rb.key, rb.value, mr, rr));
        proof {
            lemma_foot_live(s3, Some(x1), at1);
            lemma_keeps_holds(s3, s4, Set::empty(), Some(x1), at1);
            lemma_foot_live(s4, Some(x2), at2);
            assert(!foot(s3, Some(x1), at1).contains(x2));
            assert(foot(s4, Some(x1), at1).disjoint(foot(s4, Some(x2), at2)));
        }
        let x3 = make_at(a, n2.key, n2.value, Some(x1), Ghost(at1), Some(x2), Ghost(at2));
        let ghost s5 = a.nodes@;
        proof {
            let res = Some(avl_balanced(key, value, lt, rt));
            assert(res == Some(avl_node(mb.key, mb.value, at1, at2)));
            lemma_keeps_trans(s0, s1, s2, set![r], set![mx], u);
            lemma_keeps_trans(s0, s2, s3, u, Set::empty(), u);
            lemma_keeps_trans(s0, s3, s4, u, Set::empty(), u);
            lemma_keeps_trans(s0, s4, s5, u, Set::empty(), u);
            lemma_kept_fresh(s0, s2, u, x1);
            lemma_kept_fresh(s0, s3, u, x2);
            lemma_kept_fresh(s0, s4, u, x3);
            assert forall|j: usize| #[trigger] foot(s5, Some(x3), res).contains(j) implies u.contains(j)
                || j >= s0.len() || s0[j as int] is None by {
                if j != x3 && j != x2 && j != x1 {
                    assert(foot(s1, n1.left, rl).contains(j) || foot(s1, n1.right, rr).contains(j) || foot(
                        s1,
                        l,
                        lt,
                    ).contains(j));
                }
            }
        }
        x3
    }
}

/// Stores the rebalanced node over the AVL subtrees at `l` and `r`, whose heights differ by
/// two at most (`avl_balanced`). The slots of the two subtrees are reused or left free; every
/// other occupied slot stays.
fn balance_at<K: TreeKey, V>(
    a: &mut Arena<K, V, usize>,
    key: K,
    value: V,
    l: Option<usize>,
    Ghost(lt): Ghost<Option<Box<Node<K, V, usize>>>>,
    r: Option<usize>,
    Ghost(rt): Ghost<Option<Box<Node<K, V, usize>>>>,
) -> (x: usize)
    requires
        old(a).ok(),
        holds(old(a).nodes@, l, lt),
        holds(old(a).nodes@, r, rt),
        foot(old(a).nodes@, l, lt).disjoint(foot(old(a).nodes@, r, rt)),
        avl_ok(lt),
        avl_ok(rt),
        size_of(lt) + size_of(rt) < usize::MAX,
    ensures
        final(a).ok(),
        holds(final(a).nodes@, Some(x), Some(avl_balanced(key, value, lt, rt))),
        keeps(old(a).nodes@, final(a).nodes@, foot(old(a).nodes@, l, lt) + foot(old(a).nodes@, r, rt)),
        fresh(
            old(a).nodes@,
            foot(final(a).nodes@, Some(x), Some(avl_balanced(key, value, lt, rt))),
            foot(old(a).nodes@, l, lt) + foot(old(a).nodes@, r, rt),
        ),
{
    let ghost s0 = a.nodes@;
    proof {
        assert(s0.len() == a.nodes.len());
    }
    proof {
        lemma_height_le_size(lt);
        lemma_height_le_size(rt);
    }
    let hl = slot_height(a, l, Ghost(lt));
    let hr = slot_height(a, r, Ghost(rt));
    if hl > hr + 1 {
        fix_left_heavy(a, key, value, l.unwrap(), Ghost(lt), r, Ghost(rt))
    } else if hr > hl + 1 {
        fix_right_heavy(a, key, value, l, Ghost(lt), r.unwrap(), Ghost(rt))
    } else {
        let x = make_at(a, key, value, l, Ghost(lt), r, Ghost(rt));
        proof {
            let u = foot(s0, l, lt) + foot(s0, r, rt);
            assert(keeps(s0, a.nodes@, u));
            assert forall|j: usize| #[trigger] foot(a.nodes@, Some(x), Some(avl_balanced(key, value, lt, rt))).contains(j)
                implies u.contains(j) || j >= s0.len() || s0[j as int] is None by {}
        }
        x
    }
}

/// Puts `key -> value` into the AVL subtree `t` at slot `i` (`avl_put`): a new leaf where the
/// search ends, the value replaced at an equal key, and every node on the way back up
/// rebalanced over the slots themselves. Gives the slot of the new root and the replaced
/// value; the slots of `t` are reused or left free, every other occupied slot stays.
#[verifier::spinoff_prover]
#[verifier::rlimit(40)]
fn put_at<K: TreeKey, V>(
    a: &mut Arena<K, V, usize>,
    i: Option<usize>,
    Ghost(t): Ghost<Option<Box<Node<K, V, usize>>>>,
    key: K,
    value: V,
) -> (r: (usize, Option<V>))
    requires
        old(a).ok(),
        holds(old(a).nodes@, i, t),
        avl_ok(t),
        ordered(t),
        size_of(t) < usize::MAX,
    ensures
        final(a).ok(),
        holds(final(a).nodes@, Some(r.0), avl_put(t, key, value)),
        keeps(old(a).nodes@, final(a).nodes@, foot(old(a).nodes@, i, t)),
        fresh(old(a).nodes@, foot(final(a).nodes@, Some(r.0), avl_put(t, key, value)), foot(old(a).nodes@, i, t)),
        r.1 == found_value(t, key),
    decreases t,
{
    match i {
        None => {
            let ghost s0 = a.nodes@;
            proof {
                assert(s0.len() == a.nodes.len());
            }
            let x = make_at(a, key, value, None, Ghost(None), None, Ghost(None));
            proof {
                assert(foot(a.nodes@, Some(x), avl_put(t, key, value)) =~= set![x]);
            }
            (x, None)
        },
        Some(x) => {
            let ghost s0 = a.nodes@;
            proof {
                assert(s0.len() == a.nodes.len());
            }
            let ghost b = t->0;
            let ghost u = foot(s0, i, t);
            proof {
                lemma_foot_live(s0, i, t);
                lemma_map_facts(b);
                lemma_map_finite_size(t);
            }
            let n = a.unlink_node(x, Ghost(t));
            let ghost s1 = a.nodes@;
            proof {
                assert(keeps(s0, s1, set![x]));
                lemma_foot_live(s1, n.left, b.left);
                lemma_foot_live(s1, n.right, b.right);
            }
            match key.compare(&n.key) {
                KeyOrder::Equal => {
                    let y = a.link_node(n.key, value, n.aux, n.left, Ghost(b.left), n.right, Ghost(b.right));
                    proof {
                        let s2 = a.nodes@;
                        let res = avl_put(t, key, value);
                        assert(res == Some(Box::new(Node { key: b.key, value, aux: b.aux, left: b.left, right: b.right })));
                        lemma_keeps_trans(s0, s1, s2, set![x], Set::empty(), u);
                        lemma_kept_fresh(s0, s1, u, y);
                        assert forall|j: usize| #[trigger] foot(s2, Some(y), res).contains(j) implies u.contains(j)
                            || j >= s0.len() || s0[j as int] is None by {}
                    }
                    (y, Some(n.value))
                },
                KeyOrder::Less => {
                    let ghost lt = b.left;
                    let ghost nl = avl_put(lt, key, value);
                    proof {
                        lemma_avl_put(lt, key, value);
                    }
                    let (c, found) = put_at(a, n.left, Ghost(lt), key, value);
                    let ghost s2 = a.nodes@;
                    proof {
                        let ul = foot(s1, n.left, lt);
                        lemma_keeps_holds(s1, s2, ul, n.right, b.right);
                        lemma_foot_live(s2, Some(c), nl);
                        lemma_foot_live(s2, n.right, b.right);
                        assert(foot(s2, Some(c), nl).disjoint(foot(s2, n.right, b.right))) by {
                            assert forall|j: usize| #[trigger] foot(s2, Some(c), nl).contains(j) implies !foot(
                                s2,
                                n.right,
                                b.right,
                            ).contains(j) by {
                                assert(foot(s1, n.right, b.right).contains(j) ==> s1[j as int] is Some);
                            }
                        }
                        assert(all_below(map_of(nl), b.key));
                        assert(all_above(map_of(b.right), b.key));
                    }
                    let y = balance_at(a, n.key, n.value, Some(c), Ghost(nl), n.right, Ghost(b.right));
                    proof {
                        let s3 = a.nodes@;
                        let res = avl_put(t, key, value);
                        assert(u =~= set![x] + foot(s1, n.left, lt) + foot(s2, n.right, b.right));
                        lemma_step_frame(s0, s1, s2, s3, x, u, foot(s1, n.left, lt), foot(s2, Some(c), nl), foot(
                            s2,
                            n.right,
                            b.right,
                        ), foot(s3, Some(y), res));
                    }
                    (y, found)
                },
                KeyOrder::Greater => {
                    let ghost rt = b.right;
                    let ghost nr = avl_put(rt, key, value);
                    proof {
                        lemma_avl_put(rt, key, value);
                    }
                    let (c, found) = put_at(a, n.right, Ghost(rt), key, value);
                    let ghost s2 = a.nodes@;
                    proof {
                        let ur = foot(s1, n.right, rt);
                        lemma_keeps_holds(s1, s2, ur, n.left, b.left);
                        lemma_foot_live(s2, Some(c), nr);
                        lemma_foot_live(s2, n.left, b.left);
                        assert(foot(s2, n.left, b.left).disjoint(foot(s2, Some(c), nr))) by {
                            assert forall|j: usize| #[trigger] foot(s2, Some(c), nr).contains(j) implies !foot(
                                s2,
                                n.left,
                                b.left,
                            ).contains(j) by {
                                assert(foot(s1, n.left, b.left).contains(j) ==> s1[j as int] is Some);
                            }
                        }
                        assert(all_below(map_of(b.left), b.key));
                        assert(all_above(map_of(nr), b.key));
                    }
                    let y = balance_at(a, n.key, n.value, n.left, Ghost(b.left), Some(c), Ghost(nr));
                    proof {
                        let s3 = a.nodes@;
                        let res = avl_put(t, key, value);
                        assert(foot(s2, n.left, b.left) + foot(s2, Some(c), nr) =~= foot(s2, Some(c), nr) + foot(
                            s2,
                            n.left,
                            b.left,
                        ));
                        assert(u =~= set![x] + foot(s1, n.right, rt) + foot(s2, n.left, b.left));
                        lemma_step_frame(s0, s1, s2, s3, x, u, foot(s1, n.right, rt), foot(s2, Some(c), nr), foot(
                            s2,
                            n.left,
                            b.left,
                        ), foot(s3, Some(y), res));
                    }
                    (y, found)
                },
            }
        },
    }
}

/// Takes the smallest entry out of the non-empty AVL subtree `t` at slot `x` (`avl_pop_min`):
/// the leftmost node gives way to its right subtree, and every node on the way back up is
/// rebalanced over the slots. Gives the slot of the rest and the entry; the slots of `t` are
/// reused or left free, every other occupied slot stays.
#[verifier::spinoff_prover]
#[verifier::rlimit(40)]
fn pop_min_at<K: TreeKey, V>(a: &mut Arena<K, V, usize>, x: usize, Ghost(t): Ghost<Option<Box<Node<K, V, usize>>>>) -> (r: (
    Option<usize>,
    K,
    V,
))
    requires
        old(a).ok(),
        holds(old(a).nodes@, Some(x), t),
        avl_ok(t),
        ordered(t),
        size_of(t) <= usize::MAX,
    ensures
        t is Some,
        final(a).ok(),
        holds(final(a).nodes@, r.0, avl_pop_min(t->0).0),
        r.1 == avl_pop_min(t->0).1,
        r.2 == avl_pop_min(t->0).2,
        keeps(old(a).nodes@, final(a).nodes@, foot(old(a).nodes@, Some(x), t)),
        fresh(old(a).nodes@, foot(final(a).nodes@, r.0, avl_pop_min(t->0).0), foot(old(a).nodes@, Some(x), t)),
    decreases t,
{
    let ghost s0 = a.nodes@;
    proof {
        assert(s0.len() == a.nodes.len());
    }
    let ghost b = t->0;
    let ghost u = foot(s0, Some(x), t);
    proof {
        lemma_foot_live(s0, Some(x), t);
        lemma_map_facts(b);
    }
    let n = a.unlink_node(x, Ghost(t));
    let ghost s1 = a.nodes@;
    proof {
        assert(keeps(s0, s1, set![x]));
        lemma_foot_live(s1, n.left, b.left);
        lemma_foot_live(s1, n.right, b.right);
    }
    match n.left {
        None => {
            proof {
                lemma_keeps_trans(s0, s1, s1, set![x], Set::empty(), u);
                assert forall|j: usize| #[trigger] foot(s1, n.right, b.right).contains(j) implies u.contains(j)
                    || j >= s0.len() || s0[j as int] is None by {}
            }
            (n.right, n.key, n.value)
        },
        Some(lx) => {
            let ghost lt = b.left;
            let ghost m = avl_pop_min(lt->0);
            proof {
                lemma_avl_pop_min(lt->0);
            }
            let (c, k, v) = pop_min_at(a, lx, Ghost(lt));
            let ghost s2 = a.nodes@;
            proof {
                lemma_keeps_holds(s1, s2, foot(s1, n.left, lt), n.right, b.right);
                lemma_foot_live(s2, c, m.0);
                lemma_foot_live(s2, n.right, b.right);
                assert(foot(s2, c, m.0).disjoint(foot(s2, n.right, b.right))) by {
                    assert forall|j: usize| #[trigger] foot(s2, c, m.0).contains(j) implies !foot(
                        s2,
                        n.right,
                        b.right,
                    ).contains(j) by {
                        assert(foot(s1, n.right, b.right).contains(j) ==> s1[j as int] is Some);
                    }
                }
            }
            let y = balance_at(a, n.key, n.value, c, Ghost(m.0), n.right, Ghost(b.right));
            proof {
                let s3 = a.nodes@;
                assert(u =~= set![x] + foot(s1, n.left, lt) + foot(s2, n.right, b.right));
                lemma_step_frame(s0, s1, s2, s3, x, u, foot(s1, n.left, lt), foot(s2, c, m.0), foot(
                    s2,
                    n.right,
                    b.right,
                ), foot(s3, Some(y), avl_pop_min(b).0));
            }
            (Some(y), k, v)
        },
    }
}

/// Removes `key` from the AVL subtree `t` at slot `i` (`avl_del`): a node with one child gives
/// way to it, one with two takes the smallest entry of its right subtree, and every node on the
/// way back up is rebalanced over the slots. Gives the slot of the new root and the removed
/// value; the slots of `t` are reused or left free, every other occupied slot stays.
#[verifier::spinoff_prover]
#[verifier::rlimit(60)]
fn del_at<K: TreeKey, V>(
    a: &mut Arena<K, V, usize>,
    i: Option<usize>,
    Ghost(t): Ghost<Option<Box<Node<K, V, usize>>>>,
    key: &K,
) -> (r: (Option<usize>, Option<V>))
    requires
        old(a).ok(),
        holds(old(a).nodes@, i, t),
        avl_ok(t),
        ordered(t),
        size_of(t) <= usize::MAX,
    ensures
        final(a).ok(),
        holds(final(a).nodes@, r.0, avl_del(t, *key)),
        keeps(old(a).nodes@, final(a).nodes@, foot(old(a).nodes@, i, t)),
        fresh(old(a).nodes@, foot(final(a).nodes@, r.0, avl_del(t, *key)), foot(old(a).nodes@, i, t)),
        r.1 == found_value(t, *key),
    decreases t,
{
    match i {
        None => {
            proof {
                assert(keeps(a.nodes@, a.nodes@, foot(a.nodes@, i, t)));
            }
            (None, None)
        },
        Some(x) => {
            let ghost s0 = a.nodes@;
            proof {
                assert(s0.len() == a.nodes.len());
            }
            let ghost b = t->0;
            let ghost u = foot(s0, i, t);
            proof {
                lemma_foot_live(s0, i, t);
                lemma_map_facts(b);
                lemma_map_finite_size(t);
            }
            let n = a.unlink_node(x, Ghost(t));
            let ghost s1 = a.nodes@;
            proof {
                assert(keeps(s0, s1, set![x]));
                lemma_foot_live(s1, n.left, b.left);
                lemma_foot_live(s1, n.right, b.right);
            }
            match key.compare(&n.key) {
                KeyOrder::Less => {
                    let ghost lt = b.left;
                    let ghost nl = avl_del(lt, *key);
                    proof {
                        lemma_avl_del(lt, *key);
                    }
                    let (c, found) = del_at(a, n.left, Ghost(lt), key);
                    let ghost s2 = a.nodes@;
                    proof {
                        lemma_keeps_holds(s1, s2, foot(s1, n.left, lt), n.right, b.right);
                        lemma_foot_live(s2, c, nl);
                        lemma_foot_live(s2, n.right, b.right);
                        assert(foot(s2, c, nl).disjoint(foot(s2, n.right, b.right))) by {
                            assert forall|j: usize| #[trigger] foot(s2, c, nl).contains(j) implies !foot(
                                s2,
                                n.right,
                                b.right,
                            ).contains(j) by {
                                assert(foot(s1, n.right, b.right).contains(j) ==> s1[j as int] is Some);
                            }
                        }
                    }
                    let y = balance_at(a, n.key, n.value, c, Ghost(nl), n.right, Ghost(b.right));
                    proof {
                        let s3 = a.nodes@;
                        assert(u =~= set![x] + foot(s1, n.left, lt) + foot(s2, n.right, b.right));
                        lemma_step_frame(s0, s1, s2, s3, x, u, foot(s1, n.left, lt), foot(s2, c, nl), foot(
                            s2,
                            n.right,
                            b.right,
                        ), foot(s3, Some(y), avl_del(t, *key)));
                    }
                    (Some(y), found)
                },
                KeyOrder::Greater => {
                    let ghost rt = b.right;
                    let ghost nr = avl_del(rt, *key);
                    proof {
                        lemma_avl_del(rt, *key);
                    }
                    let (c, found) = del_at(a, n.right, Ghost(rt), key);
                    let ghost s2 = a.nodes@;
                    proof {
                        lemma_keeps_holds(s1, s2, foot(s1, n.right, rt), n.left, b.left);
                        lemma_foot_live(s2, c, nr);
                        lemma_foot_live(s2, n.left, b.left);
                        assert(foot(s2, n.left, b.left).disjoint(foot(s2, c, nr))) by {
                            assert forall|j: usize| #[trigger] foot(s2, c, nr).contains(j) implies !foot(
                                s2,
                                n.left,
                                b.left,
                            ).contains(j) by {
                                assert(foot(s1, n.left, b.left).contains(j) ==> s1[j as int] is Some);
                            }
                        }
                    }
                    let y = balance_at(a, n.key, n.value, n.left, Ghost(b.left), c, Ghost(nr));
                    proof {
                        let s3 = a.nodes@;
                        assert(foot(s2, n.left, b.left) + foot(s2, c, nr) =~= foot(s2, c, nr) + foot(
                            s2,
                            n.left,
                            b.left,
                        ));
                        assert(u =~= set![x] + foot(s1, n.right, rt) + foot(s2, n.left, b.left));
                        lemma_step_frame(s0, s1, s2, s3, x, u, foot(s1, n.right, rt), foot(s2, c, nr), foot(
                            s2,
                            n.left,
                            b.left,
                        ), foot(s3, Some(y), avl_del(t, *key)));
                    }
                    (Some(y), found)
                },
                KeyOrder::Equal => {
                    proof {
                        lemma_keeps_trans(s0, s1, s1, set![x], Set::empty(), u);
                    }
                    match n.right {
                        None => {
                            proof {
                                assert forall|j: usize| #[trigger] foot(s1, n.left, b.left).contains(j) implies u.contains(j)
                                    || j >= s0.len() || s0[j as int] is None by {}
                            }
                            (n.left, Some(n.value))
                        },
                        Some(rx) => match n.left {
                            None => {
                                proof {
                                    assert forall|j: usize| #[trigger] foot(s1, n.right, b.right).contains(j) implies u.contains(j)
                                        || j >= s0.len() || s0[j as int] is None by {}
                                }
                                (n.right, Some(n.value))
                            },
                            Some(lx) => {
                                let ghost rt = b.right;
                                let ghost m = avl_pop_min(rt->0);
                                proof {
                                    lemma_avl_pop_min(rt->0);
                                }
                                let (c, mk, mv) = pop_min_at(a, rx, Ghost(rt));
                                let ghost s2 = a.nodes@;
                                proof {
                                    lemma_keeps_holds(s1, s2, foot(s1, n.right, rt), n.left, b.left);
                                    lemma_foot_live(s2, c, m.0);
                                    lemma_foot_live(s2, n.left, b.left);
                                    assert(foot(s2, n.left, b.left).disjoint(foot(s2, c, m.0))) by {
                                        assert forall|j: usize| #[trigger] foot(s2, c, m.0).contains(j) implies !foot(
                                            s2,
                                            n.left,
                                            b.left,
                                        ).contains(j) by {
                                            assert(foot(s1, n.left, b.left).contains(j) ==> s1[j as int] is Some);
                                        }
                                    }
                                    assert(size_of(b.left) + size_of(m.0) < usize::MAX);
                                }
                                let y = balance_at(a, mk, mv, n.left, Ghost(b.left), c, Ghost(m.0));
                                proof {
                                    let s3 = a.nodes@;
                                    assert(foot(s2, n.left, b.left) + foot(s2, c, m.0) =~= foot(s2, c, m.0) + foot(
                                        s2,
                                        n.left,
                                        b.left,
                                    ));
                                    assert(u =~= set![x] + foot(s1, n.right, rt) + foot(s2, n.left, b.left));
                                    lemma_step_frame(s0, s1, s2, s3, x, u, foot(s1, n.right, rt), foot(s2, c, m.0), foot(
                                        s2,
                                        n.left,
                                        b.left,
                                    ), foot(s3, Some(y), avl_del(t, *key)));
                                }
                                (Some(y), Some(n.value))
                            },
                        },
                    }
                },
            }
        },
    }
}

/// A read-only view of one node of a [`AvlTree`].
pub struct AvlNodeView<'a, K: TreeKey, V> {
    at: ARef<'a, K, V, usize>,
}

/// A position at one entry of a [`AvlTree`], able to step to its neighbours in key
/// order.
pub struct AvlCursor<'a, K: TreeKey, V> {
    at: ARef<'a, K, V, usize>,
}

/// Walks the entries of a [`AvlTree`] in increasing key order.
pub struct AvlIter<'a, K: TreeKey, V> {
    next: Option<AvlCursor<'a, K, V>>,
}

impl<'a, K: TreeKey, V> Clone for AvlNodeView<'a, K, V> {
    fn clone(&self) -> (r: Self)
        ensures
            r == *self,
    {
        AvlNodeView { at: self.at.copy() }
    }
}

impl<'a, K: TreeKey, V> Clone for AvlCursor<'a, K, V> {
    fn clone(&self) -> (r: Self)
        ensures
            r == *self,
    {
        AvlCursor { at: self.at.copy() }
    }
}

impl<'a, K: TreeKey, V> AvlNodeView<'a, K, V> {
    /// The view points into an ordered tree.
    pub closed spec fn wf(&self) -> bool {
        self.at.wf()
    }

    /// The node this view shows.
    pub closed spec fn node(&self) -> Node<K, V, usize> {
        self.at.node@
    }

    /// The root link of the tree the view belongs to.
    pub closed spec fn tree_link(&self) -> Option<Box<Node<K, V, usize>>> {
        self.at.root_t@
    }

    /// The key of the node.
    pub fn key(&self) -> (r: &'a K)
        ensures
            *r == self.node().key,
    {
        self.at.key()
    }

    /// The value of the node.
    pub fn value(&self) -> (r: &'a V)
        ensures
            *r == self.node().value,
    {
        self.at.value()
    }

    /// The left child.
    pub fn left(&self) -> (r: Option<Self>)
        requires
            self.wf(),
        ensures
            match self.node().left {
                None => r is None,
                Some(l) => r matches Some(c) && c.node() == *l && c.tree_link() == self.tree_link()
                    && c.wf(),
            },
    {
        match self.at.left() {
            None => None,
            Some(p) => Some(AvlNodeView { at: p }),
        }
    }

    /// The right child.
    pub fn right(&self) -> (r: Option<Self>)
        requires
            self.wf(),
        ensures
            match self.node().right {
                None => r is None,
                Some(c0) => r matches Some(c) && c.node() == *c0 && c.tree_link()
                    == self.tree_link() && c.wf(),
            },
    {
        match self.at.right() {
            None => None,
            Some(p) => Some(AvlNodeView { at: p }),
        }
    }

    /// The parent node; `None` exactly at the root.
    pub fn parent(&self) -> (r: Option<Self>)
        requires
            self.wf(),
        ensures
            r is None <==> self.tree_link() == Some(Box::new(self.node())),
            r matches Some(p) ==> p.wf() && p.tree_link() == self.tree_link() && (p.node().left
                == Some(Box::new(self.node())) || p.node().right == Some(Box::new(self.node()))),
    {
        match self.at.parent() {
            None => None,
            Some(p) => Some(AvlNodeView { at: p }),
        }
    }
}

impl<'a, K: TreeKey, V> AvlCursor<'a, K, V> {
    /// The cursor points into an ordered tree.
    pub closed spec fn wf(&self) -> bool {
        self.at.wf()
    }

    /// The entries of the tree the cursor belongs to.
    pub closed spec fn tree_map(&self) -> Map<K, V> {
        self.at.tree_map()
    }

    /// The root link of the tree the cursor belongs to.
    pub closed spec fn tree_link(&self) -> Option<Box<Node<K, V, usize>>> {
        self.at.root_t@
    }

    /// The node the cursor is at.
    pub closed spec fn node_at(&self) -> Node<K, V, usize> {
        self.at.node@
    }

    /// The key the cursor is at.
    pub closed spec fn key_at(&self) -> K {
        self.at.node@.key
    }

    /// The value the cursor is at.
    pub closed spec fn value_at(&self) -> V {
        self.at.node@.value
    }

    /// The key at the cursor.
    pub fn key(&self) -> (r: &'a K)
        ensures
            *r == self.key_at(),
    {
        self.at.key()
    }

    /// The value at the cursor.
    pub fn value(&self) -> (r: &'a V)
        ensures
            *r == self.value_at(),
    {
        self.at.value()
    }

    /// The node the cursor is at, as a node view.
    pub fn node_view(&self) -> (r: AvlNodeView<'a, K, V>)
        requires
            self.wf(),
        ensures
            r.wf(),
            r.node().key == self.key_at(),
            r.node().value == self.value_at(),
            r.node() == self.node_at(),
            r.tree_link() == self.tree_link(),
            map_of(r.tree_link()) == self.tree_map(),
    {
        AvlNodeView { at: self.at.copy() }
    }

    /// The cursor at the next smaller key, if any.
    pub fn predecessor(&self) -> (r: Option<Self>)
        requires
            self.wf(),
        ensures
            r is Some <==> has_key_below(self.tree_map(), self.key_at()),
            r matches Some(c) ==> c.wf() && c.tree_map() == self.tree_map() && c.tree_link()
                == self.tree_link() && is_prev_key(
                self.tree_map(),
                self.key_at(),
                c.key_at(),
            ) && c.value_at() == self.tree_map()[c.key_at()],
    {
        match self.at.predecessor() {
            None => None,
            Some(p) => Some(AvlCursor { at: p }),
        }
    }

    /// The cursor at the next larger key, if any.
    pub fn successor(&self) -> (r: Option<Self>)
        requires
            self.wf(),
        ensures
            r is Some <==> has_key_above(self.tree_map(), self.key_at()),
            r matches Some(c) ==> c.wf() && c.tree_map() == self.tree_map() && c.tree_link()
                == self.tree_link() && is_next_key(
                self.tree_map(),
                self.key_at(),
                c.key_at(),
            ) && c.value_at() == self.tree_map()[c.key_at()],
    {
        match self.at.successor() {
            None => None,
            Some(p) => Some(AvlCursor { at: p }),
        }
    }
}

impl<'a, K: TreeKey + Clone, V: Clone> AvlIter<'a, K, V> {
    /// The cursor of the entry the next call returns.
    pub closed spec fn upcoming(&self) -> Option<AvlCursor<'a, K, V>> {
        self.next
    }

    /// Returns clones of the current entry and moves to the next larger key.
    pub fn next(&mut self) -> (r: Option<(K, V)>)
        requires
            old(self).upcoming() matches Some(c) ==> c.wf(),
        ensures
            match old(self).upcoming() {
                None => r is None && final(self).upcoming() is None,
                Some(c) => {
                    &&& r matches Some(e) && cloned(c.key_at(), e.0) && cloned(c.value_at(), e.1)
                    &&& final(self).upcoming() is Some <==> has_key_above(c.tree_map(), c.key_at())
                    &&& final(self).upcoming() matches Some(d) ==> d.wf() && d.tree_map()
                        == c.tree_map() && is_next_key(c.tree_map(), c.key_at(), d.key_at())
                        && d.value_at() == c.tree_map()[d.key_at()]
                },
            },
    {
        match self.next.take() {
            None => None,
            Some(c) => {
                let item = (c.key().clone(), c.value().clone());
                self.next = c.successor();
                Some(item)
            },
        }
    }
}

/// An AVL tree mapping keys to values: a binary search tree in which the heights of the two subtrees of every node differ by at most one.
pub struct AvlTree<K: TreeKey, V> {
    tree: ArenaTree<K, V, usize>,
}

impl<K: TreeKey, V> View for AvlTree<K, V> {
    type V = Map<K, V>;

    closed spec fn view(&self) -> Map<K, V> {
        self.tree@
    }
}

impl<K: TreeKey, V> AvlTree<K, V> {
    /// The tree is ordered, counts its entries, stores correct heights and is height-balanced.
    pub closed spec fn wf(&self) -> bool {
        self.tree.wf()
    }

    /// The root link of the tree.
    pub closed spec fn shape(&self) -> Option<Box<Node<K, V, usize>>> {
        self.tree.link()
    }

    /// What holds of every well-formed tree: its nodes are ordered by key and the view is
    /// the map of its nodes.
    pub proof fn lemma_shape(&self)
        requires
            self.wf(),
        ensures
            ordered(self.shape()),
            self@ == map_of(self.shape()),
            self@.dom().finite(),
            avl_ok(self.shape()),
    {
        self.tree.lemma_inv();
    }

    /// An empty tree.
    pub fn new() -> (r: Self)
        ensures
            r.wf(),
            r@ == Map::<K, V>::empty(),
    {
        AvlTree { tree: ArenaTree::new() }
    }

    /// Every node of a valid AVL tree keeps the rules in its own subtree: the keys on its
    /// left are smaller than its key and those on its right larger, the heights of its two
    /// subtrees differ by at most one, and it stores its subtree's height.
    pub proof fn lemma_node_rules(&self, n: AvlNodeView<'_, K, V>)
        requires
            self.wf(),
            n.wf(),
            n.tree_link() == self.shape(),
        ensures
            ordered(Some(Box::new(n.node()))),
            avl_ok(Some(Box::new(n.node()))),
    {
        self.lemma_shape();
        lemma_subtree_facts(n.node(), n.tree_link());
        lemma_avl_ok_subtree(n.node(), n.tree_link());
    }

    /// A key names one node: two views into the tree that show the same key show the same
    /// node.
    pub proof fn lemma_one_node_per_key(&self, a: AvlNodeView<'_, K, V>, b: AvlNodeView<'_, K, V>)
        requires
            self.wf(),
            a.wf(),
            b.wf(),
            a.tree_link() == self.shape(),
            b.tree_link() == self.shape(),
            a.node().key == b.node().key,
        ensures
            a.node() == b.node(),
    {
        lemma_subtree_unique(a.node(), b.node(), self.shape());
    }

    /// A node has one parent: two views into the tree whose nodes both have the node of `c`
    /// as a child show the same node.
    pub proof fn lemma_one_parent(&self, a: AvlNodeView<'_, K, V>, b: AvlNodeView<'_, K, V>, c: AvlNodeView<'_, K, V>)
        requires
            self.wf(),
            a.wf(),
            b.wf(),
            a.tree_link() == self.shape(),
            b.tree_link() == self.shape(),
            is_child(c.node(), a.node()),
            is_child(c.node(), b.node()),
        ensures
            a.node() == b.node(),
    {
        lemma_parent_unique(a.node(), b.node(), c.node(), self.shape());
    }

    /// A child is never the root: the node of `c`, a child of the node of `n`, is not the tree's
    /// root, so the view of it has a parent.
    pub proof fn lemma_child_not_root(&self, n: AvlNodeView<'_, K, V>, c: AvlNodeView<'_, K, V>)
        requires
            self.wf(),
            n.wf(),
            n.tree_link() == self.shape(),
            is_child(c.node(), n.node()),
        ensures
            self.shape() != Some(Box::new(c.node())),
    {
        lemma_child_smaller(c.node(), n.node(), self.shape());
    }

    /// The root node, if the tree is not empty.
    pub fn root_view(&self) -> (r: Option<AvlNodeView<'_, K, V>>)
        requires
            self.wf(),
        ensures
            r is Some <==> self@.len() > 0,
            r matches Some(v) ==> v.wf() && v.tree_link() == self.shape() && self.shape() == Some(
                Box::new(v.node()),
            ),
    {
        match self.tree.root_ref() {
            None => None,
            Some(p) => Some(AvlNodeView { at: p }),
        }
    }

    /// Number of entries.
    pub fn len(&self) -> (r: usize)
        requires
            self.wf(),
        ensures
            r == self@.len(),
    {
        self.tree.len()
    }

    /// Whether the tree holds no entry.
    pub fn is_empty(&self) -> (r: bool)
        requires
            self.wf(),
        ensures
            r == (self@.len() == 0),
    {
        self.tree.is_empty()
    }

    /// Removes every entry.
    pub fn clear(&mut self)
        ensures
            final(self).wf(),
            final(self)@ == Map::<K, V>::empty(),
    {
        self.tree.clear()
    }

    /// The cursor at `key`, if present.
    pub fn cursor(&self, key: &K) -> (r: Option<AvlCursor<'_, K, V>>)
        requires
            self.wf(),
        ensures
            r is Some <==> self@.dom().contains(*key),
            r matches Some(c) ==> c.wf() && c.tree_map() == self@ && c.tree_link() == self.shape() && c.key_at() == *key
                && c.value_at() == self@[*key],
    {
        match self.tree.cursor(key) {
            None => None,
            Some(p) => Some(AvlCursor { at: p }),
        }
    }

    /// Whether `key` is present.
    pub fn contains_key(&self, key: &K) -> (r: bool)
        requires
            self.wf(),
        ensures
            r == self@.dom().contains(*key),
    {
        self.tree.contains_key(key)
    }

    /// The cursor at the smallest key, if the tree is not empty.
    pub fn min_cursor(&self) -> (r: Option<AvlCursor<'_, K, V>>)
        requires
            self.wf(),
        ensures
            r is Some <==> self@.len() > 0,
            r matches Some(c) ==> c.wf() && c.tree_map() == self@ && c.tree_link() == self.shape() && is_min_key(self@, c.key_at())
                && c.value_at() == self@[c.key_at()],
    {
        match self.tree.min_cursor() {
            None => None,
            Some(p) => Some(AvlCursor { at: p }),
        }
    }

    /// The cursor at the largest key, if the tree is not empty.
    pub fn max_cursor(&self) -> (r: Option<AvlCursor<'_, K, V>>)
        requires
            self.wf(),
        ensures
            r is Some <==> self@.len() > 0,
            r matches Some(c) ==> c.wf() && c.tree_map() == self@ && c.tree_link() == self.shape() && is_max_key(self@, c.key_at())
                && c.value_at() == self@[c.key_at()],
    {
        match self.tree.max_cursor() {
            None => None,
            Some(p) => Some(AvlCursor { at: p }),
        }
    }

    /// Adds `key -> value`, or replaces the value of an equal key; returns the replaced value.
    pub fn insert_entry(&mut self, key: K, value: V) -> (r: Option<V>)
        requires
            old(self).wf(),
            old(self)@.len() < usize::MAX,
        ensures
            final(self).wf(),
            final(self)@ == old(self)@.insert(key, value),
            final(self).shape() == avl_put(old(self).shape(), key, value),
            r == (if old(self)@.dom().contains(key) {
                Some(old(self)@[key])
            } else {
                None::<V>
            }),
    {
        let ghost t0 = self.tree.shape@;
        proof {
            self.tree.lemma_inv();
            lemma_avl_put(t0, key, value);
        }
        let root = self.tree.root;
        let (x, r) = put_at(&mut self.tree.arena, root, Ghost(t0), key, value);
        self.tree.root = Some(x);
        if r.is_none() {
            self.tree.len = self.tree.len + 1;
        }
        self.tree.shape = Ghost(avl_put(t0, key, value));
        r
    }

    /// Removes `key`; returns its value if it was present.
    pub fn remove_key(&mut self, key: &K) -> (r: Option<V>)
        requires
            old(self).wf(),
        ensures
            final(self).wf(),
            final(self)@ == old(self)@.remove(*key),
            final(self).shape() == avl_del(old(self).shape(), *key),
            r == (if old(self)@.dom().contains(*key) {
                Some(old(self)@[*key])
            } else {
                None::<V>
            }),
    {
        let ghost t0 = self.tree.shape@;
        proof {
            self.tree.lemma_inv();
            lemma_avl_del(t0, *key);
        }
        let root = self.tree.root;
        let (x, r) = del_at(&mut self.tree.arena, root, Ghost(t0), key);
        self.tree.root = x;
        if r.is_some() {
            self.tree.len = self.tree.len - 1;
        }
        self.tree.shape = Ghost(avl_del(t0, *key));
        r
    }

    /// Walks the entries in increasing key order.
    pub fn iter(&self) -> (r: AvlIter<'_, K, V>) where K: Clone, V: Clone
        requires
            self.wf(),
        ensures
            r.upcoming() is Some <==> self@.len() > 0,
            r.upcoming() matches Some(c) ==> c.wf() && c.tree_map() == self@ && is_min_key(
                self@,
                c.key_at(),
            ) && c.value_at() == self@[c.key_at()],
    {
        AvlIter { next: self.min_cursor() }
    }

    /// A tree holding `entries`, inserted in order: a later entry replaces an earlier one
    /// with an equal key.
    pub fn from_iter(entries: Vec<(K, V)>) -> (r: Self)
        ensures
            r.wf(),
            r@ == entries_to_map(entries@),
    {
        let mut tree = Self::new();
        let ghost all = entries@;
        let n = entries.len();
        proof {
            assert(all.len() == n);
        }
        for e in it: entries.into_iter()
            invariant
                it.seq() == all,
                all.len() <= usize::MAX,
                tree.wf(),
                tree@ == entries_to_map(all.take(it.index())),
        {
            proof {
                lemma_entries_to_map_len(all.take(it.index()));
                assert(all.take(it.index() + 1).drop_last() =~= all.take(it.index()));
            }
            let (k, v) = e;
            tree.insert_entry(k, v);
        }
        proof {
            assert(all.take(all.len() as int) =~= all);
        }
        tree
    }

    /// Same as [`Self::insert_entry`].
    pub fn insert(&mut self, key: K, value: V) -> (r: Option<V>)
        requires
            old(self).wf(),
            old(self)@.len() < usize::MAX,
        ensures
            final(self).wf(),
            final(self)@ == old(self)@.insert(key, value),
            final(self).shape() == avl_put(old(self).shape(), key, value),
            r == (if old(self)@.dom().contains(key) {
                Some(old(self)@[key])
            } else {
                None::<V>
            }),
    {
        self.insert_entry(key, value)
    }

    /// Same as [`Self::remove_key`].
    pub fn remove(&mut self, key: &K) -> (r: Option<V>)
        requires
            old(self).wf(),
        ensures
            final(self).wf(),
            final(self)@ == old(self)@.remove(*key),
            final(self).shape() == avl_del(old(self).shape(), *key),
            r == (if old(self)@.dom().contains(*key) {
                Some(old(self)@[*key])
            } else {
                None::<V>
            }),
    {
        self.remove_key(key)
    }

    /// The node view of a cursor of this tree.
    pub fn view_from_cursor<'a>(&'a self, cursor: &AvlCursor<'a, K, V>) -> (r: AvlNodeView<
        'a,
        K,
        V,
    >)
        requires
            cursor.wf(),
        ensures
            r.wf(),
            r.node().key == cursor.key_at(),
            map_of(r.tree_link()) == cursor.tree_map(),
    {
        cursor.node_view()
    }

    /// Same as [`Self::min_cursor`].
    pub fn first_cursor(&self) -> (r: Option<AvlCursor<'_, K, V>>)
        requires
            self.wf(),
        ensures
            r is Some <==> self@.len() > 0,
            r matches Some(c) ==> c.wf() && c.tree_map() == self@ && c.tree_link() == self.shape() && is_min_key(self@, c.key_at()),
    {
        self.min_cursor()
    }

    /// Same as [`Self::max_cursor`].
    pub fn last_cursor(&self) -> (r: Option<AvlCursor<'_, K, V>>)
        requires
            self.wf(),
        ensures
            r is Some <==> self@.len() > 0,
            r matches Some(c) ==> c.wf() && c.tree_map() == self@ && c.tree_link() == self.shape() && is_max_key(self@, c.key_at()),
    {
        self.max_cursor()
    }

    /// Number of nodes on the longest root-to-leaf path.
    pub fn height(&self) -> (r: usize)
        requires
            self.wf(),
        ensures
            r == height_of(self.shape()),
    {
        self.tree.height()
    }

    /// Number of nodes, which is the number of entries.
    pub fn node_count(&self) -> (r: usize)
        requires
            self.wf(),
        ensures
            r == self@.len(),
    {
        self.tree.len()
    }

    /// Height of the subtree below the cursor's node.
    pub fn node_height(&self, cursor: &AvlCursor<'_, K, V>) -> (r: usize)
        requires
            self.wf(),
            cursor.wf(),
            cursor.tree_link() == self.shape(),
        ensures
            r == height_of(Some(Box::new(cursor.node_at()))),
    {
        self.tree.node_height(&cursor.at)
    }
}

} // verus!
