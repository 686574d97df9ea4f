//! The AVL tree: every node stores its height, and the heights of the two subtrees of any node
//! differ by at most one.
use vstd::prelude::*;

use crate::key::{KeyOrder, TreeKey};
use crate::trees::bin_tree::{BinTree, Shape};
use crate::trees::node::{
    height_of, is_min_key, is_subtree, lemma_height_le_size, lemma_map_facts, lemma_map_finite_size, map_of,
    ordered, size_of, Node,
};

verus! {

broadcast use vstd::map_lib::group_map_union;

/// Every key of `m` ranks below `k`.
pub open spec fn all_below<K: TreeKey, V>(m: Map<K, V>, k: K) -> bool {
    forall|j: K| #[trigger] m.dom().contains(j) ==> j.rank() < k.rank()
}

/// Every key of `m` ranks above `k`.
pub open spec fn all_above<K: TreeKey, V>(m: Map<K, V>, k: K) -> bool {
    forall|j: K| #[trigger] m.dom().contains(j) ==> j.rank() > k.rank()
}

/// Every node stores the height of its subtree and is balanced: the heights of its two
/// subtrees differ by at most one.
pub open spec fn avl_ok<K, V>(t: Option<Box<Node<K, V, usize>>>) -> bool
    decreases t,
{
    match t {
        None => true,
        Some(n) => {
            &&& n.aux == height_of(Some(n))
            &&& height_of(n.left) <= height_of(n.right) + 1
            &&& height_of(n.right) <= height_of(n.left) + 1
            &&& avl_ok(n.left)
            &&& avl_ok(n.right)
        },
    }
}

/// Larger of two naturals.
pub open spec fn nat_max(a: nat, b: nat) -> nat {
    if a >= b {
        a
    } else {
        b
    }
}

impl<K, V> Shape<K, V> for usize {
    open spec fn shape_ok(t: Option<Box<Node<K, V, usize>>>) -> bool {
        avl_ok(t)
    }

    proof fn lemma_empty_shape() {
    }
}

/// The node over two subtrees, storing its height.
pub open spec fn avl_node<K, V>(
    key: K,
    value: V,
    left: Option<Box<Node<K, V, usize>>>,
    right: Option<Box<Node<K, V, usize>>>,
) -> Box<Node<K, V, usize>> {
    Box::new(
        Node { key, value, aux: (1 + nat_max(height_of(left), height_of(right))) as usize, left, right },
    )
}

/// The node that rebalancing builds over two subtrees: where the left one is more than one
/// level taller, a right rotation (after a left rotation of the left subtree when its right
/// side is the taller one); the mirror image where the right one is; otherwise the plain node.
pub open spec fn avl_balanced<K, V>(
    key: K,
    value: V,
    left: Option<Box<Node<K, V, usize>>>,
    right: Option<Box<Node<K, V, usize>>>,
) -> Box<Node<K, V, usize>> {
    if height_of(left) > height_of(right) + 1 {
        match left {
            Some(ln) => if height_of(ln.left) >= height_of(ln.right) {
                avl_node(ln.key, ln.value, ln.left, Some(avl_node(key, value, ln.right, right)))
            } else {
                match ln.right {
                    Some(m) => avl_node(
                        m.key,
                        m.value,
                        Some(avl_node(ln.key, ln.value, ln.left, m.left)),
                        Some(avl_node(key, value, m.right, right)),
                    ),
                    None => avl_node(key, value, left, right),
                }
            },
            None => avl_node(key, value, left, right),
        }
    } else if height_of(right) > height_of(left) + 1 {
        match right {
            Some(rn) => if height_of(rn.right) >= height_of(rn.left) {
                avl_node(rn.key, rn.value, Some(avl_node(key, value, left, rn.left)), rn.right)
            } else {
                match rn.left {
                    Some(m) => avl_node(
                        m.key,
                        m.value,
                        Some(avl_node(key, value, left, m.left)),
                        Some(avl_node(rn.key, rn.value, m.right, rn.right)),
                    ),
                    None => avl_node(key, value, left, right),
                }
            },
            None => avl_node(key, value, left, right),
        }
    } else {
        avl_node(key, value, left, right)
    }
}

/// The subtree that putting `key -> value` into `t` gives: a new leaf where the search ends,
/// the value replaced at an equal key, and every node on the way back up rebalanced.
pub open spec fn avl_put<K: TreeKey, V>(
    t: Option<Box<Node<K, V, usize>>>,
    key: K,
    value: V,
) -> Option<Box<Node<K, V, usize>>>
    decreases t,
{
    match t {
        None => Some(avl_node(key, value, None, None)),
        Some(b) => if key.rank() < b.key.rank() {
            Some(avl_balanced(b.key, b.value, avl_put(b.left, key, value), b.right))
        } else if key.rank() > b.key.rank() {
            Some(avl_balanced(b.key, b.value, b.left, avl_put(b.right, key, value)))
        } else {
            Some(Box::new(Node { key: b.key, value, aux: b.aux, left: b.left, right: b.right }))
        },
    }
}

/// The rest of a non-empty subtree without its smallest entry, and that entry: the leftmost
/// node gives way to its right subtree, and every node on the way back up is rebalanced.
pub open spec fn avl_pop_min<K, V>(b: Box<Node<K, V, usize>>) -> (
    Option<Box<Node<K, V, usize>>>,
    K,
    V,
)
    decreases b,
{
    match b.left {
        None => (b.right, b.key, b.value),
        Some(l) => {
            let m = avl_pop_min(l);
            (Some(avl_balanced(b.key, b.value, m.0, b.right)), m.1, m.2)
        },
    }
}

/// The subtree that removing `key` from `t` gives: a node with one child gives way to it, one
/// with two takes the smallest entry of its right subtree, and every node on the way back up is
/// rebalanced.
pub open spec fn avl_del<K: TreeKey, V>(t: Option<Box<Node<K, V, usize>>>, key: K) -> Option<
    Box<Node<K, V, usize>>,
>
    decreases t,
{
    match t {
        None => None,
        Some(b) => if key.rank() < b.key.rank() {
            Some(avl_balanced(b.key, b.value, avl_del(b.left, key), b.right))
        } else if key.rank() > b.key.rank() {
            Some(avl_balanced(b.key, b.value, b.left, avl_del(b.right, key)))
        } else {
            match b.right {
                None => b.left,
                Some(rb) => match b.left {
                    None => Some(rb),
                    Some(lb) => {
                        let m = avl_pop_min(rb);
                        Some(avl_balanced(m.1, m.2, Some(lb), m.0))
                    },
                },
            }
        },
    }
}

/// Height stored at the root of a subtree (0 when empty).
fn height_at<K, V>(t: &Option<Box<Node<K, V, usize>>>) -> (h: usize)
    requires
        avl_ok(*t),
    ensures
        h == height_of(*t),
{
    match t {
        None => 0,
        Some(n) => n.aux,
    }
}

/// A node over two AVL subtrees whose heights differ by at most one.
fn make<K: TreeKey, V>(
    key: K,
    value: V,
    left: Option<Box<Node<K, V, usize>>>,
    right: Option<Box<Node<K, V, usize>>>,
) -> (r: Box<Node<K, V, usize>>)
    requires
        avl_ok(left),
        avl_ok(right),
        height_of(left) <= height_of(right) + 1,
        height_of(right) <= height_of(left) + 1,
        ordered(left),
        ordered(right),
        all_below(map_of(left), key),
        all_above(map_of(right), key),
        size_of(left) + size_of(right) < usize::MAX,
    ensures
        avl_ok(Some(r)),
        ordered(Some(r)),
        r.key == key,
        r.value == value,
        r.left == left,
        r.right == right,
        height_of(Some(r)) == 1 + nat_max(height_of(left), height_of(right)),
        size_of(Some(r)) == size_of(left) + size_of(right) + 1,
        r == avl_node(key, value, left, right),
{
    proof {
        lemma_height_le_size(left);
        lemma_height_le_size(right);
    }
    let hl = height_at(&left);
    let hr = height_at(&right);
    let h = if hl >= hr {
        hl + 1
    } else {
        hr + 1
    };
    Box::new(Node { key, value, aux: h, left, right })
}

pub proof fn lemma_avl_node<K: TreeKey, V>(
    key: K,
    value: V,
    left: Option<Box<Node<K, V, usize>>>,
    right: Option<Box<Node<K, V, usize>>>,
)
    requires
        avl_ok(left),
        avl_ok(right),
        height_of(left) <= height_of(right) + 1,
        height_of(right) <= height_of(left) + 1,
        ordered(left),
        ordered(right),
        all_below(map_of(left), key),
        all_above(map_of(right), key),
        size_of(left) + size_of(right) < usize::MAX,
    ensures
        avl_ok(Some(avl_node(key, value, left, right))),
        ordered(Some(avl_node(key, value, left, right))),
        avl_node(key, value, left, right).key == key,
        avl_node(key, value, left, right).value == value,
        avl_node(key, value, left, right).left == left,
        avl_node(key, value, left, right).right == right,
        height_of(Some(avl_node(key, value, left, right))) == 1 + nat_max(height_of(left), height_of(right)),
        size_of(Some(avl_node(key, value, left, right))) == size_of(left) + size_of(right) + 1,
{
    lemma_height_le_size(left);
    lemma_height_le_size(right);
}

/// Restores balance at a node whose subtrees are AVL trees with heights differing by at most
/// two, by at most two rotations.
#[verifier::rlimit(40)]
fn balance<K: TreeKey, V>(
    key: K,
    value: V,
    left: Option<Box<Node<K, V, usize>>>,
    right: Option<Box<Node<K, V, usize>>>,
) -> (r: Box<Node<K, V, usize>>)
    requires
        avl_ok(left),
        avl_ok(right),
        height_of(left) <= height_of(right) + 2,
        height_of(right) <= height_of(left) + 2,
        ordered(left),
        ordered(right),
        all_below(map_of(left), key),
        all_above(map_of(right), key),
        size_of(left) + size_of(right) < usize::MAX,
    ensures
        avl_ok(Some(r)),
        ordered(Some(r)),
        map_of(Some(r)) == map_of(left).union_prefer_right(map_of(right)).insert(key, value),
        size_of(Some(r)) == size_of(left) + size_of(right) + 1,
        nat_max(height_of(left), height_of(right)) <= height_of(Some(r)) <= 1 + nat_max(
            height_of(left),
            height_of(right),
        ),
        height_of(left) <= height_of(right) + 1 && height_of(right) <= height_of(left) + 1
            ==> height_of(Some(r)) == 1 + nat_max(height_of(left), height_of(right)),
        r == avl_balanced(key, value, left, right),
{
    proof {
        lemma_height_le_size(left);
        lemma_height_le_size(right);
        lemma_map_finite_size(left);
        lemma_map_finite_size(right);
    }
    let hl = height_at(&left);
    let hr = height_at(&right);
    if hl > hr + 1 {
        let ln = left.unwrap();
        proof {
            lemma_map_facts(ln);
        }
        let Node { key: lk, value: lv, aux: _, left: ll, right: lr } = *ln;
        let hll = height_at(&ll);
        let hlr = height_at(&lr);
        if hll >= hlr {
            proof {
                assert(all_below(map_of(lr), key));
                assert(all_above(map_of(lr), lk));
                assert(all_above(map_of(right), lk));
            }
            let inner = make(key, value, lr, right);
            proof {
                assert(all_above(map_of(Some(inner)), lk));
            }
            let r = make(lk, lv, ll, Some(inner));
            proof {
                assert(map_of(Some(r)) =~= map_of(left).union_prefer_right(map_of(right)).insert(
                    key,
                    value,
                ));
            }
            r
        } else {
            let lrn = lr.unwrap();
            proof {
                lemma_map_facts(lrn);
                assert(avl_ok(Some(lrn)));
                assert(avl_ok(lrn.left) && avl_ok(lrn.right));
                assert(ordered(Some(lrn)));
                assert(ordered(lrn.left) && ordered(lrn.right));
                assert(size_of(Some(lrn)) == size_of(lrn.left) + size_of(lrn.right) + 1);
            }
            let Node { key: mk, value: mv, aux: _, left: mll, right: mrr } = *lrn;
            proof {
                assert(all_above(map_of(mll), lk));
                assert(all_below(map_of(ll), mk));
                assert(all_below(map_of(mrr), key));
                assert(all_above(map_of(right), mk));
            }
            let a = make(lk, lv, ll, mll);
            let b = make(key, value, mrr, right);
            proof {
                assert(all_below(map_of(Some(a)), mk));
                assert(all_above(map_of(Some(b)), mk));
            }
            let r = make(mk, mv, Some(a), Some(b));
            proof {
                assert(map_of(Some(r)) =~= map_of(left).union_prefer_right(map_of(right)).insert(
                    key,
                    value,
                ));
            }
            r
        }
    } else if hr > hl + 1 {
        let rn = right.unwrap();
        proof {
            lemma_map_facts(rn);
        }
        let Node { key: rk, value: rv, aux: _, left: rl, right: rr } = *rn;
        let hrl = height_at(&rl);
        let hrr = height_at(&rr);
        if hrr >= hrl {
            proof {
                assert(all_above(map_of(rl), key));
                assert(all_below(map_of(rl), rk));
                assert(all_below(map_of(left), rk));
            }
            let inner = make(key, value, left, rl);
            proof {
                assert(all_below(map_of(Some(inner)), rk));
            }
            let r = make(rk, rv, Some(inner), rr);
            proof {
                assert(map_of(Some(r)) =~= map_of(left).union_prefer_right(map_of(right)).insert(
                    key,
                    value,
                ));
            }
            r
        } else {
            let rln = rl.unwrap();
            proof {
                lemma_map_facts(rln);
                assert(avl_ok(Some(rln)));
                assert(avl_ok(rln.left) && avl_ok(rln.right));
                assert(ordered(Some(rln)));
                assert(ordered(rln.left) && ordered(rln.right));
                assert(size_of(Some(rln)) == size_of(rln.left) + size_of(rln.right) + 1);
            }
            let Node { key: mk, value: mv, aux: _, left: mll, right: mrr } = *rln;
            proof {
                assert(all_above(map_of(mll), key));
                assert(all_below(map_of(left), mk));
                assert(all_below(map_of(mrr), rk));
                assert(all_above(map_of(rr), mk));
            }
            let a = make(key, value, left, mll);
            let b = make(rk, rv, mrr, rr);
            proof {
                assert(all_below(map_of(Some(a)), mk));
                assert(all_above(map_of(Some(b)), mk));
            }
            let r = make(mk, mv, Some(a), Some(b));
            proof {
                assert(map_of(Some(r)) =~= map_of(left).union_prefer_right(map_of(right)).insert(
                    key,
                    value,
                ));
            }
            r
        }
    } else {
        make(key, value, left, right)
    }
}

#[verifier::rlimit(40)]
pub proof fn lemma_avl_balanced<K: TreeKey, V>(
    key: K,
    value: V,
    left: Option<Box<Node<K, V, usize>>>,
    right: Option<Box<Node<K, V, usize>>>,
)
    requires
        avl_ok(left),
        avl_ok(right),
        height_of(left) <= height_of(right) + 2,
        height_of(right) <= height_of(left) + 2,
        ordered(left),
        ordered(right),
        all_below(map_of(left), key),
        all_above(map_of(right), key),
        size_of(left) + size_of(right) < usize::MAX,
    ensures
        avl_ok(Some(avl_balanced(key, value, left, right))),
        ordered(Some(avl_balanced(key, value, left, right))),
        map_of(Some(avl_balanced(key, value, left, right))) == map_of(left).union_prefer_right(map_of(right)).insert(key, value),
        size_of(Some(avl_balanced(key, value, left, right))) == size_of(left) + size_of(right) + 1,
        nat_max(height_of(left), height_of(right)) <= height_of(Some(avl_balanced(key, value, left, right))) <= 1 + nat_max(
            height_of(left),
            height_of(right),
        ),
        height_of(left) <= height_of(right) + 1 && height_of(right) <= height_of(left) + 1
            ==> height_of(Some(avl_balanced(key, value, left, right))) == 1 + nat_max(height_of(left), height_of(right)),
{
    {
        lemma_height_le_size(left);
        lemma_height_le_size(right);
        lemma_map_finite_size(left);
        lemma_map_finite_size(right);
    }
    let hl = height_of(left);
    let hr = height_of(right);
    if hl > hr + 1 {
        let ln = left->0;
        {
            lemma_map_facts(ln);
        }
        let Node { key: lk, value: lv, aux: _, left: ll, right: lr } = *ln;
        let hll = height_of(ll);
        let hlr = height_of(lr);
        if hll >= hlr {
            {
                assert(all_below(map_of(lr), key));
                assert(all_above(map_of(lr), lk));
                assert(all_above(map_of(right), lk));
            }
            lemma_avl_node(key, value, lr, right);
            let inner = avl_node(key, value, lr, right);
            {
                assert(all_above(map_of(Some(inner)), lk));
            }
            lemma_avl_node(lk, lv, ll, Some(inner));
            let r = avl_node(lk, lv, ll, Some(inner));
            {
                assert(map_of(Some(r)) =~= map_of(left).union_prefer_right(map_of(right)).insert(
                    key,
                    value,
                ));
            }
        } else {
            let lrn = lr->0;
            {
                lemma_map_facts(lrn);
                assert(avl_ok(Some(lrn)));
                assert(avl_ok(lrn.left) && avl_ok(lrn.right));
                assert(ordered(Some(lrn)));
                assert(ordered(lrn.left) && ordered(lrn.right));
                assert(size_of(Some(lrn)) == size_of(lrn.left) + size_of(lrn.right) + 1);
            }
            let Node { key: mk, value: mv, aux: _, left: mll, right: mrr } = *lrn;
            {
                assert(all_above(map_of(mll), lk));
                assert(all_below(map_of(ll), mk));
                assert(all_below(map_of(mrr), key));
                assert(all_above(map_of(right), mk));
            }
            lemma_avl_node(lk, lv, ll, mll);
            let a = avl_node(lk, lv, ll, mll);
            lemma_avl_node(key, value, mrr, right);
            let b = avl_node(key, value, mrr, right);
            {
                assert(all_below(map_of(Some(a)), mk));
                assert(all_above(map_of(Some(b)), mk));
            }
            lemma_avl_node(mk, mv, Some(a), Some(b));
            let r = avl_node(mk, mv, Some(a), Some(b));
            {
                assert(map_of(Some(r)) =~= map_of(left).union_prefer_right(map_of(right)).insert(
                    key,
                    value,
                ));
            }
        }
    } else if hr > hl + 1 {
        let rn = right->0;
        {
            lemma_map_facts(rn);
        }
        let Node { key: rk, value: rv, aux: _, left: rl, right: rr } = *rn;
        let hrl = height_of(rl);
        let hrr = height_of(rr);
        if hrr >= hrl {
            {
                assert(all_above(map_of(rl), key));
                assert(all_below(map_of(rl), rk));
                assert(all_below(map_of(left), rk));
            }
            lemma_avl_node(key, value, left, rl);
            let inner = avl_node(key, value, left, rl);
            {
                assert(all_below(map_of(Some(inner)), rk));
            }
            lemma_avl_node(rk, rv, Some(inner), rr);
            let r = avl_node(rk, rv, Some(inner), rr);
            {
                assert(map_of(Some(r)) =~= map_of(left).union_prefer_right(map_of(right)).insert(
                    key,
                    value,
                ));
            }
        } else {
            let rln = rl->0;
            {
                lemma_map_facts(rln);
                assert(avl_ok(Some(rln)));
                assert(avl_ok(rln.left) && avl_ok(rln.right));
                assert(ordered(Some(rln)));
                assert(ordered(rln.left) && ordered(rln.right));
                assert(size_of(Some(rln)) == size_of(rln.left) + size_of(rln.right) + 1);
            }
            let Node { key: mk, value: mv, aux: _, left: mll, right: mrr } = *rln;
            {
                assert(all_above(map_of(mll), key));
                assert(all_below(map_of(left), mk));
                assert(all_below(map_of(mrr), rk));
                assert(all_above(map_of(rr), mk));
            }
            lemma_avl_node(key, value, left, mll);
            let a = avl_node(key, value, left, mll);
            lemma_avl_node(rk, rv, mrr, rr);
            let b = avl_node(rk, rv, mrr, rr);
            {
                assert(all_below(map_of(Some(a)), mk));
                assert(all_above(map_of(Some(b)), mk));
            }
            lemma_avl_node(mk, mv, Some(a), Some(b));
            let r = avl_node(mk, mv, Some(a), Some(b));
            {
                assert(map_of(Some(r)) =~= map_of(left).union_prefer_right(map_of(right)).insert(
                    key,
                    value,
                ));
            }
        }
    } else {
        lemma_avl_node(key, value, left, right);
    }
}

/// The value that the search for `key` finds in `t`, if any.
pub open spec fn found_value<K: TreeKey, V>(t: Option<Box<Node<K, V, usize>>>, key: K) -> Option<V>
    decreases t,
{
    match t {
        None => None,
        Some(b) => if key.rank() < b.key.rank() {
            found_value(b.left, key)
        } else if key.rank() > b.key.rank() {
            found_value(b.right, key)
        } else {
            Some(b.value)
        },
    }
}

/// What `avl_put` gives: an AVL tree with the entry put in, one level taller at most.
#[verifier::spinoff_prover]
#[verifier::rlimit(40)]
pub proof fn lemma_avl_put<K: TreeKey, V>(t: Option<Box<Node<K, V, usize>>>, key: K, value: V)
    requires
        avl_ok(t),
        ordered(t),
        size_of(t) < usize::MAX,
    ensures
        avl_ok(avl_put(t, key, value)),
        ordered(avl_put(t, key, value)),
        map_of(avl_put(t, key, value)) == map_of(t).insert(key, value),
        found_value(t, key) == (if map_of(t).dom().contains(key) {
            Some(map_of(t)[key])
        } else {
            None::<V>
        }),
        size_of(avl_put(t, key, value)) == size_of(t) + (if found_value(t, key) is Some {
            0int
        } else {
            1int
        }),
        height_of(t) <= height_of(avl_put(t, key, value)) <= height_of(t) + 1,
    decreases t,
{
    match t {
        None => {
            lemma_avl_node(key, value, None, None);
            assert(map_of(avl_put(t, key, value)) =~= map_of(t).insert(key, value));
        },
        Some(b) => {
            lemma_map_facts(b);
            lemma_map_finite_size(t);
            if key.rank() < b.key.rank() {
                lemma_avl_put(b.left, key, value);
                let nl = avl_put(b.left, key, value);
                assert(all_below(map_of(nl), b.key));
                assert(all_above(map_of(b.right), b.key));
                lemma_avl_balanced(b.key, b.value, nl, b.right);
                assert(map_of(avl_put(t, key, value)) =~= map_of(t).insert(key, value));
            } else if key.rank() > b.key.rank() {
                lemma_avl_put(b.right, key, value);
                let nr = avl_put(b.right, key, value);
                assert(all_below(map_of(b.left), b.key));
                assert(all_above(map_of(nr), b.key));
                lemma_avl_balanced(b.key, b.value, b.left, nr);
                assert(map_of(avl_put(t, key, value)) =~= map_of(t).insert(key, value));
            } else {
                K::lemma_rank_injective(key, b.key);
                assert(map_of(avl_put(t, key, value)) =~= map_of(t).insert(key, value));
            }
        },
    }
}

/// What `avl_pop_min` gives: the smallest entry and an AVL tree without it.
#[verifier::spinoff_prover]
#[verifier::rlimit(40)]
pub proof fn lemma_avl_pop_min<K: TreeKey, V>(b: Box<Node<K, V, usize>>)
    requires
        avl_ok(Some(b)),
        ordered(Some(b)),
        size_of(Some(b)) <= usize::MAX,
    ensures
        avl_ok(avl_pop_min(b).0),
        ordered(avl_pop_min(b).0),
        is_min_key(map_of(Some(b)), avl_pop_min(b).1),
        map_of(Some(b))[avl_pop_min(b).1] == avl_pop_min(b).2,
        map_of(avl_pop_min(b).0) == map_of(Some(b)).remove(avl_pop_min(b).1),
        size_of(avl_pop_min(b).0) + 1 == size_of(Some(b)),
        height_of(avl_pop_min(b).0) <= height_of(Some(b)) <= height_of(avl_pop_min(b).0) + 1,
    decreases b,
{
    lemma_map_facts(b);
    lemma_map_finite_size(Some(b));
    match b.left {
        None => {
            assert(map_of(b.right) =~= map_of(Some(b)).remove(b.key));
        },
        Some(l) => {
            lemma_avl_pop_min(l);
            let m = avl_pop_min(l);
            assert(all_below(map_of(m.0), b.key));
            assert(all_above(map_of(b.right), b.key));
            lemma_avl_balanced(b.key, b.value, m.0, b.right);
            assert(map_of(avl_pop_min(b).0) =~= map_of(Some(b)).remove(m.1));
        },
    }
}

/// What `avl_del` gives at a node whose key is the one removed.
#[verifier::rlimit(40)]
proof fn lemma_avl_del_here<K: TreeKey, V>(b: Box<Node<K, V, usize>>)
    requires
        avl_ok(Some(b)),
        ordered(Some(b)),
        size_of(Some(b)) <= usize::MAX,
    ensures
        avl_ok(avl_del(Some(b), b.key)),
        ordered(avl_del(Some(b), b.key)),
        map_of(avl_del(Some(b), b.key)) == map_of(Some(b)).remove(b.key),
        size_of(avl_del(Some(b), b.key)) + 1 == size_of(Some(b)),
        height_of(avl_del(Some(b), b.key)) <= height_of(Some(b)) <= height_of(avl_del(Some(b), b.key)) + 1,
{
    let t = Some(b);
    lemma_map_facts(b);
    lemma_map_finite_size(t);
    match b.right {
        None => {
            assert(map_of(b.left) =~= map_of(t).remove(b.key));
        },
        Some(rb) => match b.left {
            None => {
                assert(map_of(b.right) =~= map_of(t).remove(b.key));
            },
            Some(lb) => {
                lemma_avl_pop_min(rb);
                let m = avl_pop_min(rb);
                assert(all_below(map_of(Some(lb)), m.1));
                assert forall|j: K| #[trigger] map_of(m.0).dom().contains(j) implies j.rank() > m.1.rank() by {
                    if j.rank() == m.1.rank() {
                        K::lemma_rank_injective(j, m.1);
                    }
                }
                lemma_avl_balanced(m.1, m.2, Some(lb), m.0);
                assert(map_of(avl_del(t, b.key)) =~= map_of(t).remove(b.key));
            },
        },
    }
}

/// What `avl_del` gives: an AVL tree without `key`, one level shorter at most.
#[verifier::spinoff_prover]
#[verifier::rlimit(40)]
pub proof fn lemma_avl_del<K: TreeKey, V>(t: Option<Box<Node<K, V, usize>>>, key: K)
    requires
        avl_ok(t),
        ordered(t),
        size_of(t) <= usize::MAX,
    ensures
        avl_ok(avl_del(t, key)),
        ordered(avl_del(t, key)),
        map_of(avl_del(t, key)) == map_of(t).remove(key),
        found_value(t, key) == (if map_of(t).dom().contains(key) {
            Some(map_of(t)[key])
        } else {
            None::<V>
        }),
        size_of(avl_del(t, key)) + (if found_value(t, key) is Some {
            1int
        } else {
            0int
        }) == size_of(t),
        height_of(avl_del(t, key)) <= height_of(t) <= height_of(avl_del(t, key)) + 1,
    decreases t,
{
    match t {
        None => {
            assert(map_of(t) =~= map_of(t).remove(key));
        },
        Some(b) => {
            lemma_map_facts(b);
            lemma_map_finite_size(t);
            if key.rank() < b.key.rank() {
                lemma_avl_del(b.left, key);
                let nl = avl_del(b.left, key);
                assert(all_below(map_of(nl), b.key));
                assert(all_above(map_of(b.right), b.key));
                lemma_avl_balanced(b.key, b.value, nl, b.right);
                assert(map_of(avl_del(t, key)) =~= map_of(t).remove(key));
            } else if key.rank() > b.key.rank() {
                lemma_avl_del(b.right, key);
                let nr = avl_del(b.right, key);
                assert(all_below(map_of(b.left), b.key));
                assert(all_above(map_of(nr), b.key));
                lemma_avl_balanced(b.key, b.value, b.left, nr);
                assert(map_of(avl_del(t, key)) =~= map_of(t).remove(key));
            } else {
                K::lemma_rank_injective(key, b.key);
                lemma_avl_del_here(b);
            }
        },
    }
}

/// Adds `key -> value` to an AVL subtree, rebalancing on the way back up; returns the new
/// subtree and the replaced value.
#[verifier::spinoff_prover]
#[verifier::rlimit(40)]
pub fn avl_insert_link<K: TreeKey, V>(t: Option<Box<Node<K, V, usize>>>, key: K, value: V) -> (r: (
    Option<Box<Node<K, V, usize>>>,
    Option<V>,
))
    requires
        avl_ok(t),
        ordered(t),
        size_of(t) < usize::MAX,
    ensures
        avl_ok(r.0),
        ordered(r.0),
        map_of(r.0) == map_of(t).insert(key, value),
        r.1 == (if map_of(t).dom().contains(key) {
            Some(map_of(t)[key])
        } else {
            None::<V>
        }),
        size_of(r.0) == size_of(t) + (if r.1 is Some {
            0int
        } else {
            1int
        }),
        height_of(t) <= height_of(r.0) <= height_of(t) + 1,
        r.0 == avl_put(t, key, value),
    decreases t,
{
    match t {
        None => {
            let n = make(key, value, None, None);
            proof {
                assert(map_of(Some(n)) =~= map_of(t).insert(key, value));
            }
            (Some(n), None)
        },
        Some(b) => {
            proof {
                lemma_map_facts(b);
                lemma_map_finite_size(t);
            }
            let Node { key: k, value: v, aux, left, right } = *b;
            match key.compare(&k) {
                KeyOrder::Equal => {
                    let n = Box::new(Node { key: k, value, aux, left, right });
                    proof {
                        assert(map_of(Some(n)) =~= map_of(t).insert(key, value));
                    }
                    (Some(n), Some(v))
                },
                KeyOrder::Less => {
                    let (nl, r) = avl_insert_link(left, key, value);
                    proof {
                        assert(all_below(map_of(nl), k));
                        assert(all_above(map_of(right), k));
                    }
                    let n = balance(k, v, nl, right);
                    proof {
                        assert(map_of(Some(n)) =~= map_of(t).insert(key, value));
                    }
                    (Some(n), r)
                },
                KeyOrder::Greater => {
                    let (nr, r) = avl_insert_link(right, key, value);
                    proof {
                        assert(all_below(map_of(left), k));
                        assert(all_above(map_of(nr), k));
                    }
                    let n = balance(k, v, left, nr);
                    proof {
                        assert(map_of(Some(n)) =~= map_of(t).insert(key, value));
                    }
                    (Some(n), r)
                },
            }
        },
    }
}

/// Removes the smallest entry of a non-empty AVL subtree; returns the rest and the entry.
#[verifier::spinoff_prover]
#[verifier::rlimit(40)]
pub fn avl_remove_min<K: TreeKey, V>(b: Box<Node<K, V, usize>>) -> (r: (
    Option<Box<Node<K, V, usize>>>,
    K,
    V,
))
    requires
        avl_ok(Some(b)),
        ordered(Some(b)),
        size_of(Some(b)) <= usize::MAX,
    ensures
        avl_ok(r.0),
        ordered(r.0),
        is_min_key(map_of(Some(b)), r.1),
        map_of(Some(b))[r.1] == r.2,
        map_of(r.0) == map_of(Some(b)).remove(r.1),
        size_of(r.0) + 1 == size_of(Some(b)),
        height_of(r.0) <= height_of(Some(b)) <= height_of(r.0) + 1,
        r == avl_pop_min(b),
    decreases b,
{
    proof {
        lemma_map_facts(b);
        lemma_map_finite_size(Some(b));
    }
    let Node { key: k, value: v, aux: _, left, right } = *b;
    match left {
        None => {
            proof {
                assert(map_of(right) =~= map_of(Some(b)).remove(k));
            }
            (right, k, v)
        },
        Some(l) => {
            let (nl, mk, mv) = avl_remove_min(l);
            proof {
                assert(all_below(map_of(nl), k));
                assert(all_above(map_of(right), k));
            }
            let n = balance(k, v, nl, right);
            proof {
                assert(map_of(Some(n)) =~= map_of(Some(b)).remove(mk));
            }
            (Some(n), mk, mv)
        },
    }
}

/// Removes `key` from an AVL subtree, rebalancing on the way back up; returns the new subtree
/// and the removed value.
#[verifier::spinoff_prover]
#[verifier::rlimit(40)]
pub fn avl_remove_link<K: TreeKey, V>(t: Option<Box<Node<K, V, usize>>>, key: &K) -> (r: (
    Option<Box<Node<K, V, usize>>>,
    Option<V>,
))
    requires
        avl_ok(t),
        ordered(t),
        size_of(t) <= usize::MAX,
    ensures
        avl_ok(r.0),
        ordered(r.0),
        map_of(r.0) == map_of(t).remove(*key),
        r.1 == (if map_of(t).dom().contains(*key) {
            Some(map_of(t)[*key])
        } else {
            None::<V>
        }),
        size_of(r.0) + (if r.1 is Some {
            1int
        } else {
            0int
        }) == size_of(t),
        height_of(r.0) <= height_of(t) <= height_of(r.0) + 1,
        r.0 == avl_del(t, *key),
    decreases t,
{
    match t {
        None => {
            proof {
                assert(map_of(t) =~= map_of(t).remove(*key));
            }
            (None, None)
        },
        Some(b) => {
            proof {
                lemma_map_facts(b);
                lemma_map_finite_size(t);
            }
            let Node { key: k, value: v, aux, left, right } = *b;
            match key.compare(&k) {
                KeyOrder::Less => {
                    let (nl, r) = avl_remove_link(left, key);
                    proof {
                        assert(all_below(map_of(nl), k));
                        assert(all_above(map_of(right), k));
                    }
                    let n = balance(k, v, nl, right);
                    proof {
                        assert(map_of(Some(n)) =~= map_of(t).remove(*key));
                    }
                    (Some(n), r)
                },
                KeyOrder::Greater => {
                    let (nr, r) = avl_remove_link(right, key);
                    proof {
                        assert(all_below(map_of(left), k));
                        assert(all_above(map_of(nr), k));
                    }
                    let n = balance(k, v, left, nr);
                    proof {
                        assert(map_of(Some(n)) =~= map_of(t).remove(*key));
                    }
                    (Some(n), r)
                },
                KeyOrder::Equal => {
                    proof {
                        assert(size_of(t) == size_of(left) + size_of(right) + 1);
                    }
                    let rest = match right {
                        None => left,
                        Some(rb) => match left {
                            None => Some(rb),
                            Some(lb) => {
                                let (nr, sk, sv) = avl_remove_min(rb);
                                proof {
                                    assert(all_below(map_of(Some(lb)), sk));
                                    assert forall|j: K| #[trigger] map_of(nr).dom().contains(j) implies j.rank() > sk.rank() by {
                                        if j.rank() == sk.rank() {
                                            K::lemma_rank_injective(j, sk);
                                        }
                                    }
                                }
                                let n = balance(sk, sv, Some(lb), nr);
                                Some(n)
                            },
                        },
                    };
                    proof {
                        assert(map_of(rest) =~= map_of(t).remove(*key));
                    }
                    (rest, Some(v))
                },
            }
        },
    }
}

impl<K: TreeKey, V> BinTree<K, V, usize> {
    /// Adds `key -> value`, or replaces the value of an equal key; returns the replaced value.
    pub fn avl_insert(&mut self, key: K, value: V) -> (r: Option<V>)
        requires
            old(self).wf(),
            old(self)@.len() < usize::MAX,
        ensures
            final(self).wf(),
            final(self).link() == avl_put(old(self).link(), key, value),
            final(self)@ == old(self)@.insert(key, value),
            r == (if old(self)@.dom().contains(key) {
                Some(old(self)@[key])
            } else {
                None::<V>
            }),
    {
        proof {
            self.lemma_inv();
        }
        let root = self.root.take();
        let (rest, r) = avl_insert_link(root, key, value);
        self.root = rest;
        if r.is_none() {
            self.len = self.len + 1;
        }
        r
    }

    /// Removes `key`; returns its value if it was present.
    pub fn avl_remove(&mut self, key: &K) -> (r: Option<V>)
        requires
            old(self).wf(),
        ensures
            final(self).wf(),
            final(self).link() == avl_del(old(self).link(), *key),
            final(self)@ == old(self)@.remove(*key),
            r == (if old(self)@.dom().contains(*key) {
                Some(old(self)@[*key])
            } else {
                None::<V>
            }),
    {
        proof {
            self.lemma_inv();
        }
        let root = self.root.take();
        let (rest, r) = avl_remove_link(root, key);
        self.root = rest;
        if r.is_some() {
            self.len = self.len - 1;
        }
        r
    }
}

/// The rule holds of every subtree of a tree that keeps it.
pub proof fn lemma_avl_ok_subtree<K, V>(sub: Node<K, V, usize>, t: Option<Box<Node<K, V, usize>>>)
    requires
        is_subtree(sub, t),
        avl_ok(t),
    ensures
        avl_ok(Some(Box::new(sub))),
    decreases t,
{
    let n = t.unwrap();
    if *n == sub {
    } else if is_subtree(sub, n.left) {
        lemma_avl_ok_subtree(sub, n.left);
    } else {
        lemma_avl_ok_subtree(sub, n.right);
    }
}

} // verus!

