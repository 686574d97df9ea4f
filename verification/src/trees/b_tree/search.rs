//! Read-only walks over a B-tree: finding a key, the smallest and largest entries, the
//! neighbours of a key, the parent of a node, the height and the number of nodes.
use vstd::prelude::*;

use crate::key::{KeyOrder, TreeKey};
use crate::trees::b_tree::engine::{
    bdepth, bseq, bshape, bsub, bvalid, entries_map, find_slot, lemma_child_bounds,
    lemma_descend, lemma_entries_map_at, lemma_key_in_node, lemma_leaf_absent, BNode,
};
use crate::trees::b_tree::layout::{bleft, bparts, bright, lemma_bseq_parts, lemma_child_at, lemma_cut};
use crate::trees::node::{entries_within, sorted_entries};

verus! {

/// The entries of the subtree rooted at `n`, as a map.
pub open spec fn bmap<K, V>(n: BNode<K, V>) -> Map<K, V> {
    entries_map(bseq(n))
}

/// A proper subtree of a valid node holds at most `2t - 1` keys.
pub proof fn lemma_bsub_upper<K: TreeKey, V>(sub: BNode<K, V>, n: BNode<K, V>, t: nat)
    requires
        bvalid(n, t),
        bsub(sub, n),
        sub != n,
    ensures
        sub.keys@.len() <= 2 * t - 1,
    decreases n,
{
    let j = choose|j: int| 0 <= j < n.children@.len() && bsub(sub, #[trigger] n.children@[j]);
    let c = n.children@[j];
    assert(bshape(c, t));
    lemma_child_bounds(n, j);
    if sub != c {
        lemma_bsub_upper(sub, c, t);
    }
}

/// A node below a valid node is valid, no deeper, and its entries are entries of the node.
pub proof fn lemma_bsub_within<K: TreeKey, V>(sub: BNode<K, V>, n: BNode<K, V>, t: nat)
    requires
        bvalid(n, t),
        bsub(sub, n),
    ensures
        bvalid(sub, t),
        bdepth(sub) <= bdepth(n),
        entries_within(bmap(sub), bmap(n)),
        sub != n ==> sub.keys@.len() >= t - 1,
    decreases n,
{
    if sub != n {
        let j = choose|j: int| 0 <= j < n.children@.len() && bsub(sub, #[trigger] n.children@[j]);
        let c = n.children@[j];
        assert(bshape(c, t));
        lemma_child_bounds(n, j);
        lemma_bsub_within(sub, c, t);
        assert(bdepth(c) == bdepth(n.children@[0]));
    }
}

/// A child of a node below `n` is below `n`.
pub proof fn lemma_bsub_child<K, V>(sub: BNode<K, V>, n: BNode<K, V>, i: int)
    requires
        bsub(sub, n),
        0 <= i < sub.children@.len(),
    ensures
        bsub(sub.children@[i], n),
    decreases n,
{
    let c = sub.children@[i];
    if sub == n {
        assert(bsub(c, c));
        assert(bsub(c, n.children@[i]));
    } else {
        let j = choose|j: int| 0 <= j < n.children@.len() && bsub(sub, #[trigger] n.children@[j]);
        lemma_bsub_child(sub, n.children@[j], i);
        assert(bsub(c, n.children@[j]));
    }
}

/// Every node is below itself.
pub proof fn lemma_bsub_refl<K, V>(n: BNode<K, V>)
    ensures
        bsub(n, n),
{
}

/// A node strictly below `n` lies below the child of `n` that a search for any of its keys
/// descends into, and none of its keys is a key of `n`.
pub proof fn lemma_bsub_route<K: TreeKey, V>(sub: BNode<K, V>, n: BNode<K, V>, x: int, t: nat)
    requires
        bvalid(n, t),
        bsub(sub, n),
        sub != n,
        0 <= x < sub.keys@.len(),
    ensures
        n.children@.len() == n.keys@.len() + 1,
        forall|y: int| 0 <= y < n.keys@.len() ==> n.keys@[y] != sub.keys@[x],
        exists|j: int|
            0 <= j < n.children@.len() && bsub(sub, #[trigger] n.children@[j]) && (forall|y: int|
                0 <= y < j ==> (#[trigger] n.keys@[y]).rank() < sub.keys@[x].rank()) && (j
                < n.keys@.len() ==> sub.keys@[x].rank() < n.keys@[j].rank()),
{
    let j = choose|j: int| 0 <= j < n.children@.len() && bsub(sub, #[trigger] n.children@[j]);
    let c = n.children@[j];
    let k = sub.keys@[x];
    assert(bshape(c, t));
    lemma_child_bounds(n, j);
    lemma_bsub_within(sub, c, t);
    lemma_key_in_node(sub, x);
    assert(bmap(c).dom().contains(k));
    let cs = bseq(c);
    let p = choose|p: int| 0 <= p < cs.len() && #[trigger] cs[p].0 == k;
    assert(j > 0 ==> n.keys@[j - 1].rank() < cs[p].0.rank());
    assert(j < n.keys@.len() ==> cs[p].0.rank() < n.keys@[j].rank());
    assert forall|y: int| 0 <= y < j implies (#[trigger] n.keys@[y]).rank() < k.rank() by {
        if y < j - 1 {
            lemma_key_order(n, y, j - 1);
        }
    }
    assert forall|y: int| 0 <= y < n.keys@.len() implies n.keys@[y] != k by {
        if y >= j && j < n.keys@.len() {
            if y > j {
                lemma_key_order(n, j, y);
            }
        }
    }
}

/// The keys of a node with sorted entries increase.
pub proof fn lemma_key_order<K: TreeKey, V>(n: BNode<K, V>, a: int, b: int)
    requires
        n.keys@.len() == n.values@.len(),
        n.children@.len() == 0 || n.children@.len() == n.keys@.len() + 1,
        sorted_entries(bseq(n)),
        0 <= a < b < n.keys@.len(),
    ensures
        n.keys@[a].rank() < n.keys@[b].rank(),
{
    lemma_bseq_parts(n);
    lemma_cut(n.keys@, n.values@, n.children@, b);
    let pb = bparts(
        n.keys@.take(b),
        n.values@.take(b),
        crate::trees::b_tree::layout::cut_left(n.children@, b),
    ).len() as int;
    let l = n.keys@.take(b);
    let lv = n.values@.take(b);
    let lc = crate::trees::b_tree::layout::cut_left(n.children@, b);
    lemma_cut(l, lv, lc, a);
    let pa = bparts(l.take(a), lv.take(a), crate::trees::b_tree::layout::cut_left(lc, a)).len() as int;
    let s = bseq(n);
    let left = bparts(l, lv, lc);
    assert(left[pa] == (l[a], lv[a]));
    assert(l[a] == n.keys@[a] && lv[a] == n.values@[a]);
    assert(pb == left.len());
    assert(s[pa] == left[pa]);
    assert(s[pb] == (n.keys@[b], n.values@[b]));
    assert(s[pa].0.rank() < s[pb].0.rank());
}

/// Finds the node and position holding `key` in the subtree rooted at `n`.
pub fn search<'a, K: TreeKey, V>(n: &'a BNode<K, V>, key: &K, Ghost(t): Ghost<nat>) -> (r: Option<
    (&'a BNode<K, V>, usize),
>)
    requires
        bvalid(*n, t),
    ensures
        r is Some <==> bmap(*n).dom().contains(*key),
        r matches Some(p) ==> bsub(*p.0, *n) && p.1 < p.0.keys@.len() && p.0.keys@[p.1 as int]
            == *key && p.0.values@[p.1 as int] == bmap(*n)[*key],
    decreases *n,
{
    let (i, found) = find_slot(&n.keys, key);
    proof {
        if (i as int) < n.keys@.len() && !found {
            if n.keys@[i as int].rank() == key.rank() {
                K::lemma_rank_injective(n.keys@[i as int], *key);
            }
        }
    }
    if found {
        proof {
            lemma_key_in_node(*n, i as int);
        }
        return Some((n, i));
    }
    if n.children.len() == 0 {
        proof {
            lemma_leaf_absent(*n, i as int, *key);
        }
        return None;
    }
    let c = &n.children[i];
    proof {
        assert(bshape(*c, t));
        lemma_child_bounds(*n, i as int);
        lemma_descend(*n, i as int, *key);
    }
    let r = search(c, key, Ghost(t));
    proof {
        if let Some(p) = r {
            assert(bsub(*p.0, n.children@[i as int]));
        }
    }
    r
}

/// The first entry of a non-empty subtree: position 0 of its leftmost leaf.
pub fn first_entry<'a, K: TreeKey, V>(n: &'a BNode<K, V>, Ghost(t): Ghost<nat>) -> (r: (
    &'a BNode<K, V>,
    usize,
))
    requires
        bvalid(*n, t),
        t >= 2,
        n.keys@.len() >= 1,
    ensures
        bsub(*r.0, *n),
        r.1 < r.0.keys@.len(),
        bseq(*n).len() > 0,
        bseq(*n)[0] == (r.0.keys@[r.1 as int], r.0.values@[r.1 as int]),
    decreases *n,
{
    proof {
        lemma_bseq_parts(*n);
        lemma_cut(n.keys@, n.values@, n.children@, 0);
    }
    if n.children.len() == 0 {
        return (n, 0);
    }
    let c = &n.children[0];
    proof {
        assert(bshape(*c, t));
        lemma_child_bounds(*n, 0);
        lemma_child_at(n.keys@, n.values@, n.children@, 0);
    }
    let r = first_entry(c, Ghost(t));
    proof {
        assert(bsub(*r.0, n.children@[0]));
    }
    r
}

/// The last entry of a non-empty subtree: the last position of its rightmost leaf.
pub fn last_entry<'a, K: TreeKey, V>(n: &'a BNode<K, V>, Ghost(t): Ghost<nat>) -> (r: (
    &'a BNode<K, V>,
    usize,
))
    requires
        bvalid(*n, t),
        t >= 2,
        n.keys@.len() >= 1,
    ensures
        bsub(*r.0, *n),
        r.1 < r.0.keys@.len(),
        bseq(*n).len() > 0,
        bseq(*n).last() == (r.0.keys@[r.1 as int], r.0.values@[r.1 as int]),
    decreases *n,
{
    proof {
        lemma_bseq_parts(*n);
        lemma_cut(n.keys@, n.values@, n.children@, n.keys@.len() - 1);
    }
    if n.children.len() == 0 {
        return (n, n.keys.len() - 1);
    }
    let last = n.children.len() - 1;
    let c = &n.children[last];
    proof {
        assert(bshape(*c, t));
        lemma_child_bounds(*n, last as int);
        lemma_child_at(n.keys@, n.values@, n.children@, last as int);
    }
    let r = last_entry(c, Ghost(t));
    proof {
        assert(bsub(*r.0, n.children@[last as int]));
    }
    r
}

/// The entries before child `i` rank no higher than the key before it, and those after it
/// no lower than the key after it.
proof fn lemma_sides<K: TreeKey, V>(n: BNode<K, V>, i: int)
    requires
        n.keys@.len() == n.values@.len(),
        n.children@.len() == n.keys@.len() + 1,
        0 <= i < n.children@.len(),
        sorted_entries(bseq(n)),
    ensures
        bseq(n) =~= bleft(n.keys@, n.values@, n.children@, i) + bseq(n.children@[i]) + bright(
            n.keys@,
            n.values@,
            n.children@,
            i,
        ),
        forall|q: int|
            0 <= q < bleft(n.keys@, n.values@, n.children@, i).len() ==> (#[trigger] bseq(n)[q]).0.rank()
                <= n.keys@[i - 1].rank(),
        forall|q: int|
            0 <= q < bright(n.keys@, n.values@, n.children@, i).len() ==> n.keys@[i].rank() <= (
            #[trigger] bseq(n)[bleft(n.keys@, n.values@, n.children@, i).len()
                + bseq(n.children@[i]).len() + q]).0.rank(),
        i > 0 ==> bseq(n)[bleft(n.keys@, n.values@, n.children@, i).len() - 1] == (
            n.keys@[i - 1],
            n.values@[i - 1],
        ),
        i < n.keys@.len() ==> bseq(n)[(bleft(n.keys@, n.values@, n.children@, i).len()
            + bseq(n.children@[i]).len()) as int] == (n.keys@[i], n.values@[i]),
        bleft(n.keys@, n.values@, n.children@, i).len() > 0 <==> i > 0,
        bright(n.keys@, n.values@, n.children@, i).len() > 0 <==> i < n.keys@.len(),
{
    let ks = n.keys@;
    let vs = n.values@;
    let cs = n.children@;
    lemma_bseq_parts(n);
    lemma_child_at(ks, vs, cs, i);
    let s = bseq(n);
    let l = bleft(ks, vs, cs, i);
    let sc = bseq(cs[i]);
    assert forall|q: int| 0 <= q < l.len() implies (#[trigger] s[q]).0.rank() <= ks[i - 1].rank() by {
        assert(s[l.len() - 1] == (ks[i - 1], vs[i - 1]));
        if q < l.len() - 1 {
            assert(s[q].0.rank() < s[l.len() - 1].0.rank());
        }
    }
    assert forall|q: int|
        0 <= q < bright(ks, vs, cs, i).len() implies ks[i].rank() <= (#[trigger] s[l.len()
        + sc.len() + q]).0.rank() by {
        let b = (l.len() + sc.len()) as int;
        assert(s[b] == (ks[i], vs[i]));
        if q > 0 {
            assert(s[b].0.rank() < s[b + q].0.rank());
        }
    }
}

/// The keys of a node with sorted entries increase.
pub proof fn lemma_keys_sorted<K: TreeKey, V>(n: BNode<K, V>)
    requires
        n.keys@.len() == n.values@.len(),
        n.children@.len() == 0 || n.children@.len() == n.keys@.len() + 1,
        sorted_entries(bseq(n)),
    ensures
        forall|a: int, b: int|
            0 <= a < b < n.keys@.len() ==> (#[trigger] n.keys@[a]).rank() < (
            #[trigger] n.keys@[b]).rank(),
{
    assert forall|a: int, b: int| 0 <= a < b < n.keys@.len() implies (#[trigger] n.keys@[a]).rank()
        < (#[trigger] n.keys@[b]).rank() by {
        lemma_key_order(n, a, b);
    }
}

/// The first position among a node's keys whose key ranks above `key`.
fn slot_above<K: TreeKey, V>(n: &BNode<K, V>, key: &K) -> (j: usize)
    requires
        n.keys@.len() == n.values@.len(),
        n.children@.len() == 0 || n.children@.len() == n.keys@.len() + 1,
        sorted_entries(bseq(*n)),
    ensures
        j <= n.keys@.len(),
        forall|y: int| 0 <= y < j ==> (#[trigger] n.keys@[y]).rank() <= key.rank(),
        j < n.keys@.len() ==> n.keys@[j as int].rank() > key.rank(),
{
    proof {
        lemma_keys_sorted(*n);
    }
    let keys = &n.keys;
    let (i, found) = find_slot(keys, key);
    proof {
        if (i as int) < keys@.len() && !found {
            if keys@[i as int].rank() == key.rank() {
                K::lemma_rank_injective(keys@[i as int], *key);
            }
        }
    }
    if found && i < keys.len() {
        i + 1
    } else {
        i
    }
}

/// The position of the first entry of the subtree rooted at `n` whose key ranks above `key`,
/// if there is one.
pub fn next_above<'a, K: TreeKey, V>(n: &'a BNode<K, V>, key: &K, Ghost(t): Ghost<nat>) -> (r:
    Option<(&'a BNode<K, V>, usize)>)
    requires
        bvalid(*n, t),
    ensures
        r is None <==> forall|q: int| 0 <= q < bseq(*n).len() ==> (#[trigger] bseq(*n)[q]).0.rank()
            <= key.rank(),
        r matches Some(x) ==> bsub(*x.0, *n) && x.1 < x.0.keys@.len() && exists|p: int|
            0 <= p < bseq(*n).len() && #[trigger] bseq(*n)[p] == (
                x.0.keys@[x.1 as int],
                x.0.values@[x.1 as int],
            ) && bseq(*n)[p].0.rank() > key.rank() && (p > 0 ==> bseq(*n)[p - 1].0.rank()
                <= key.rank()),
    decreases *n,
{
    let ghost s = bseq(*n);
    let j = slot_above(n, key);
    if n.children.len() == 0 {
        proof {
            assert forall|q: int| 0 <= q < s.len() && q < j implies (#[trigger] s[q]).0.rank()
                <= key.rank() by {
                assert(s[q].0 == n.keys@[q]);
            }
        }
        if j < n.keys.len() {
            proof {
                assert(s[j as int] == (n.keys@[j as int], n.values@[j as int]));
                lemma_bsub_refl(*n);
                if j > 0 {
                    assert(s[j - 1].0 == n.keys@[j - 1]);
                }
            }
            return Some((n, j));
        }
        return None;
    }
    let c = &n.children[j];
    proof {
        assert(bshape(*c, t));
        lemma_child_bounds(*n, j as int);
        lemma_sides(*n, j as int);
    }
    let ghost l = bleft(n.keys@, n.values@, n.children@, j as int);
    let ghost sc = bseq(*c);
    let ghost b = (l.len() + sc.len()) as int;
    proof {
        assert forall|q: int| 0 <= q < l.len() implies (#[trigger] s[q]).0.rank() <= key.rank() by {
            assert(s[q].0.rank() <= n.keys@[j - 1].rank());
        }
        assert forall|q: int| b <= q < s.len() implies (#[trigger] s[q]).0.rank() > key.rank() by {
            assert(s[b + (q - b)] == s[q]);
        }
    }
    let rc = next_above(c, key, Ghost(t));
    match rc {
        Some(x) => {
            proof {
                assert(bsub(*x.0, n.children@[j as int]));
                let p = choose|p: int|
                    0 <= p < sc.len() && #[trigger] sc[p] == (
                        x.0.keys@[x.1 as int],
                        x.0.values@[x.1 as int],
                    ) && sc[p].0.rank() > key.rank() && (p > 0 ==> sc[p - 1].0.rank()
                        <= key.rank());
                let q = l.len() + p;
                assert(s[q] == sc[p]);
                if p > 0 {
                    assert(s[q - 1] == sc[p - 1]);
                }
            }
            Some(x)
        },
        None => {
            proof {
                assert forall|q: int| 0 <= q < b implies (#[trigger] s[q]).0.rank() <= key.rank() by {
                    if q >= l.len() {
                        assert(s[q] == sc[q - l.len()]);
                    }
                }
            }
            if j < n.keys.len() {
                proof {
                    assert(s[b] == (n.keys@[j as int], n.values@[j as int]));
                    lemma_bsub_refl(*n);
                }
                Some((n, j))
            } else {
                None
            }
        },
    }
}

/// The position of the last entry of the subtree rooted at `n` whose key ranks below `key`,
/// if there is one.
pub fn prev_below<'a, K: TreeKey, V>(n: &'a BNode<K, V>, key: &K, Ghost(t): Ghost<nat>) -> (r:
    Option<(&'a BNode<K, V>, usize)>)
    requires
        bvalid(*n, t),
    ensures
        r is None <==> forall|q: int| 0 <= q < bseq(*n).len() ==> (#[trigger] bseq(*n)[q]).0.rank()
            >= key.rank(),
        r matches Some(x) ==> bsub(*x.0, *n) && x.1 < x.0.keys@.len() && exists|p: int|
            0 <= p < bseq(*n).len() && #[trigger] bseq(*n)[p] == (
                x.0.keys@[x.1 as int],
                x.0.values@[x.1 as int],
            ) && bseq(*n)[p].0.rank() < key.rank() && (p + 1 < bseq(*n).len() ==> bseq(
                *n,
            )[p + 1].0.rank() >= key.rank()),
    decreases *n,
{
    let ghost s = bseq(*n);
    let (i, _found) = find_slot(&n.keys, key);
    if n.children.len() == 0 {
        proof {
            assert forall|q: int| 0 <= q < s.len() && q >= i implies (#[trigger] s[q]).0.rank()
                >= key.rank() by {
                assert(s[q].0 == n.keys@[q]);
                if q > i {
                    lemma_key_order(*n, i as int, q);
                }
            }
        }
        if i > 0 {
            proof {
                assert(s[i - 1] == (n.keys@[i - 1], n.values@[i - 1]));
                lemma_bsub_refl(*n);
                if (i as int) < s.len() {
                    assert(s[i as int].0 == n.keys@[i as int]);
                }
            }
            return Some((n, i - 1));
        }
        return None;
    }
    let c = &n.children[i];
    proof {
        assert(bshape(*c, t));
        lemma_child_bounds(*n, i as int);
        lemma_sides(*n, i as int);
    }
    let ghost l = bleft(n.keys@, n.values@, n.children@, i as int);
    let ghost sc = bseq(*c);
    let ghost b = (l.len() + sc.len()) as int;
    proof {
        assert forall|q: int| b <= q < s.len() implies (#[trigger] s[q]).0.rank() >= key.rank() by {
            assert(s[b + (q - b)] == s[q]);
        }
    }
    let rc = prev_below(c, key, Ghost(t));
    match rc {
        Some(x) => {
            proof {
                assert(bsub(*x.0, n.children@[i as int]));
                let p = choose|p: int|
                    0 <= p < sc.len() && #[trigger] sc[p] == (
                        x.0.keys@[x.1 as int],
                        x.0.values@[x.1 as int],
                    ) && sc[p].0.rank() < key.rank() && (p + 1 < sc.len() ==> sc[p + 1].0.rank()
                        >= key.rank());
                let q = l.len() + p;
                assert(s[q] == sc[p]);
                if p + 1 < sc.len() {
                    assert(s[q + 1] == sc[p + 1]);
                }
            }
            Some(x)
        },
        None => {
            proof {
                assert forall|q: int| l.len() <= q < s.len() implies (#[trigger] s[q]).0.rank()
                    >= key.rank() by {
                    if q < b {
                        assert(s[q] == sc[q - l.len()]);
                    }
                }
            }
            if i > 0 {
                proof {
                    let q = l.len() - 1;
                    assert(s[q] == (n.keys@[i - 1], n.values@[i - 1]));
                    assert(s[q + 1].0.rank() >= key.rank() || q + 1 >= s.len());
                    lemma_bsub_refl(*n);
                }
                Some((n, i - 1))
            } else {
                None
            }
        },
    }
}

/// The parent of a node strictly below the root: a search for the node's first key passes
/// through it. `None` when the node is the root itself.
pub fn find_parent<'a, K: TreeKey, V>(
    root: &'a BNode<K, V>,
    node: &BNode<K, V>,
    Ghost(t): Ghost<nat>,
) -> (r: Option<&'a BNode<K, V>>)
    requires
        bvalid(*root, t),
        t >= 2,
        root.keys@.len() >= 1,
        bsub(*node, *root),
    ensures
        r is None <==> *node == *root,
        r matches Some(p) ==> bsub(*p, *root) && exists|i: int|
            0 <= i < p.children@.len() && #[trigger] p.children@[i] == *node,
{
    proof {
        lemma_bsub_within(*node, *root, t);
    }
    let k = &node.keys[0];
    let (i, found) = find_slot(&root.keys, k);
    if found {
        proof {
            if *node != *root {
                lemma_bsub_route(*node, *root, 0, t);
            }
        }
        return None;
    }
    proof {
        lemma_bsub_route(*node, *root, 0, t);
        let j = choose|j: int|
            0 <= j < root.children@.len() && bsub(*node, #[trigger] root.children@[j]) && (forall|
                y: int,
            | 0 <= y < j ==> (#[trigger] root.keys@[y]).rank() < node.keys@[0].rank()) && (j
                < root.keys@.len() ==> node.keys@[0].rank() < root.keys@[j].rank());
        if j < i {
            assert(root.keys@[j].rank() < node.keys@[0].rank());
        } else if j > i {
            assert(root.keys@[i as int].rank() < node.keys@[0].rank());
        }
        lemma_bsub_refl(*root);
    }
    let mut cur = root;
    let mut j = i;
    loop
        invariant
            bvalid(*root, t),
            t >= 2,
            bsub(*cur, *root),
            bvalid(*cur, t),
            cur.children@.len() == cur.keys@.len() + 1,
            j < cur.children@.len(),
            bsub(*node, cur.children@[j as int]),
            *node != *root,
            node.keys@.len() >= 1,
            *k == node.keys@[0],
        decreases bdepth(*cur),
    {
        let c = &cur.children[j];
        proof {
            assert(bshape(*c, t));
            lemma_child_bounds(*cur, j as int);
            lemma_bsub_within(*node, *c, t);
            lemma_bsub_child(*cur, *root, j as int);
        }
        match c.keys[0].compare(k) {
            KeyOrder::Equal => {
                proof {
                    if *node != *c {
                        lemma_bsub_route(*node, *c, 0, t);
                        assert(c.keys@[0] != node.keys@[0]);
                    }
                }
                return Some(cur);
            },
            _ => {},
        }
        proof {
            if *node == *c {
                assert(c.keys@[0] == node.keys@[0]);
            }
            lemma_bsub_route(*node, *c, 0, t);
        }
        let (i2, _found2) = find_slot(&c.keys, k);
        proof {
            let j2 = choose|j2: int|
                0 <= j2 < c.children@.len() && bsub(*node, #[trigger] c.children@[j2]) && (forall|
                    y: int,
                | 0 <= y < j2 ==> (#[trigger] c.keys@[y]).rank() < node.keys@[0].rank()) && (j2
                    < c.keys@.len() ==> node.keys@[0].rank() < c.keys@[j2].rank());
            if j2 < i2 {
                assert(c.keys@[j2].rank() < node.keys@[0].rank());
            } else if j2 > i2 {
                assert(c.keys@[i2 as int].rank() < node.keys@[0].rank());
            }
            assert(bdepth(*c) < bdepth(*cur));
        }
        cur = c;
        j = i2;
    }
}

/// Number of nodes on a path from `n` down to a leaf.
pub fn subtree_height<K, V>(n: &BNode<K, V>) -> (r: usize)
    requires
        bdepth(*n) < usize::MAX,
    ensures
        r == bdepth(*n) + 1,
{
    let mut h: usize = 1;
    let mut cur = n;
    while cur.children.len() > 0
        invariant
            h + bdepth(*cur) == bdepth(*n) + 1,
            bdepth(*n) < usize::MAX,
        decreases bdepth(*cur),
    {
        cur = &cur.children[0];
        h = h + 1;
    }
    h
}

/// A subtree with at least one key in every node is shallower than it has entries.
pub proof fn lemma_depth_below_len<K, V>(n: BNode<K, V>, t: nat)
    requires
        bshape(n, t),
        t >= 2,
        n.keys@.len() >= 1,
    ensures
        bdepth(n) < bseq(n).len(),
    decreases n,
{
    lemma_bseq_parts(n);
    lemma_cut(n.keys@, n.values@, n.children@, 0);
    if n.children@.len() > 0 {
        let c = n.children@[0];
        assert(bshape(c, t));
        lemma_depth_below_len(c, t);
        lemma_child_at(n.keys@, n.values@, n.children@, 0);
    }
}

/// Number of nodes of a subtree.
pub open spec fn bcount<K, V>(n: BNode<K, V>) -> nat
    decreases n,
{
    1 + bcount_seq(n.children@)
}

/// Number of nodes of a sequence of subtrees.
pub open spec fn bcount_seq<K, V>(cs: Seq<BNode<K, V>>) -> nat
    decreases cs,
{
    if cs.len() == 0 {
        0
    } else {
        bcount_seq(cs.drop_last()) + bcount(cs.last())
    }
}

/// A subtree has no more nodes than entries when every node holds a key.
pub proof fn lemma_count_le<K, V>(n: BNode<K, V>, t: nat)
    requires
        bshape(n, t),
        t >= 2,
        n.keys@.len() >= 1,
    ensures
        bcount(n) <= bseq(n).len(),
    decreases n,
{
    lemma_bseq_parts(n);
    lemma_cut(n.keys@, n.values@, n.children@, 0);
    if n.children@.len() > 0 {
        let cs = n.children@;
        assert forall|j: int| 0 <= j < cs.len() implies bshape(#[trigger] cs[j], t)
            && cs[j].keys@.len() >= 1 by {}
        lemma_count_seq_le(n.keys@, n.values@, cs.drop_last(), t);
        assert(bshape(cs.last(), t));
        lemma_count_le(cs.last(), t);
        assert(bcount_seq(cs) == bcount_seq(cs.drop_last()) + bcount(cs.last()));
    } else {
        assert(n.children@ =~= Seq::<BNode<K, V>>::empty());
        assert(bcount_seq(n.children@) == 0);
    }
}

/// Children with a key in every node have, together with their separating keys, at least as
/// many entries as nodes and separators.
pub proof fn lemma_count_seq_le<K, V>(ks: Seq<K>, vs: Seq<V>, cs: Seq<BNode<K, V>>, t: nat)
    requires
        t >= 2,
        ks.len() >= cs.len(),
        vs.len() >= cs.len(),
        forall|j: int| 0 <= j < cs.len() ==> bshape(#[trigger] cs[j], t) && cs[j].keys@.len() >= 1,
    ensures
        bcount_seq(cs) + cs.len() <= crate::trees::b_tree::engine::pairs_seq(ks, vs, cs).len(),
    decreases cs,
{
    if cs.len() > 0 {
        lemma_count_seq_le(ks, vs, cs.drop_last(), t);
        assert(bshape(cs[cs.len() - 1], t));
        lemma_count_le(cs.last(), t);
    }
}

/// The nodes of the first children are no more than those of all children.
proof fn lemma_count_prefix<K, V>(cs: Seq<BNode<K, V>>, i: int)
    requires
        0 <= i <= cs.len(),
    ensures
        bcount_seq(cs.take(i)) <= bcount_seq(cs),
    decreases cs.len(),
{
    if i < cs.len() {
        assert(cs.drop_last().take(i) =~= cs.take(i));
        lemma_count_prefix(cs.drop_last(), i);
    } else {
        assert(cs.take(i) =~= cs);
    }
}

/// Counts the nodes of a subtree.
pub fn count_nodes<K, V>(n: &BNode<K, V>, Ghost(t): Ghost<nat>) -> (r: usize)
    requires
        bshape(*n, t),
        t >= 2,
        n.keys@.len() >= 1,
        bseq(*n).len() <= usize::MAX,
    ensures
        r == bcount(*n),
    decreases *n,
{
    proof {
        lemma_count_le(*n, t);
    }
    let mut total: usize = 1;
    let mut i: usize = 0;
    while i < n.children.len()
        invariant
            bshape(*n, t),
            t >= 2,
            i <= n.children@.len(),
            total == 1 + bcount_seq(n.children@.take(i as int)),
            bcount(*n) <= bseq(*n).len() <= usize::MAX,
            n.children@.len() > 0 ==> n.children@.len() == n.keys@.len() + 1,
        decreases n.children@.len() - i,
    {
        let c = &n.children[i];
        proof {
            assert(bshape(*c, t));
            lemma_bseq_parts(*n);
            lemma_child_at(n.keys@, n.values@, n.children@, i as int);
            let ct = n.children@.take(i + 1);
            assert(ct.drop_last() =~= n.children@.take(i as int));
            assert(ct.last() == *c);
            lemma_count_prefix(n.children@, i + 1);
        }
        let k = count_nodes(c, Ghost(t));
        total = total + k;
        i = i + 1;
    }
    proof {
        assert(n.children@.take(i as int) =~= n.children@);
    }
    total
}

} // verus!
