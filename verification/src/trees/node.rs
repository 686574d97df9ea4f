//! The binary node shared by the binary search tree, the AVL tree, the red-black tree and the
//! splay tree, with its mathematical model and the read-only searches over it.
use vstd::prelude::*;

use crate::key::{KeyOrder, TreeKey};

verus! {

broadcast use vstd::map_lib::group_map_union;

/// A node of a binary search tree. `aux` is the balancing data of the tree kind
/// (a height, a colour and a subtree size, or nothing).
pub struct Node<K, V, A> {
    pub key: K,
    pub value: V,
    pub aux: A,
    pub left: Option<Box<Node<K, V, A>>>,
    pub right: Option<Box<Node<K, V, A>>>,
}

/// The entries stored in a subtree, as a map.
pub open spec fn map_of<K, V, A>(t: Option<Box<Node<K, V, A>>>) -> Map<K, V>
    decreases t,
{
    match t {
        None => Map::empty(),
        Some(n) => map_of(n.left).union_prefer_right(map_of(n.right)).insert(n.key, n.value),
    }
}

/// The entries of a subtree in in-order (left subtree, node, right subtree).
pub open spec fn seq_of<K, V, A>(t: Option<Box<Node<K, V, A>>>) -> Seq<(K, V)>
    decreases t,
{
    match t {
        None => Seq::empty(),
        Some(n) => seq_of(n.left) + seq![(n.key, n.value)] + seq_of(n.right),
    }
}

/// Number of nodes of a subtree.
pub open spec fn size_of<K, V, A>(t: Option<Box<Node<K, V, A>>>) -> nat
    decreases t,
{
    match t {
        None => 0,
        Some(n) => size_of(n.left) + size_of(n.right) + 1,
    }
}

/// Number of nodes on the longest path from the root of a subtree to a leaf.
pub open spec fn height_of<K, V, A>(t: Option<Box<Node<K, V, A>>>) -> nat
    decreases t,
{
    match t {
        None => 0,
        Some(n) => {
            let hl = height_of(n.left);
            let hr = height_of(n.right);
            1 + if hl >= hr {
                hl
            } else {
                hr
            }
        },
    }
}

/// The binary-search-tree order: every key of a left subtree ranks below its node, every key
/// of a right subtree above it.
pub open spec fn ordered<K: TreeKey, V, A>(t: Option<Box<Node<K, V, A>>>) -> bool
    decreases t,
{
    match t {
        None => true,
        Some(n) => {
            &&& forall|k: K| #[trigger] map_of(n.left).dom().contains(k) ==> k.rank() < n.key.rank()
            &&& forall|k: K| #[trigger] map_of(n.right).dom().contains(k) ==> k.rank() > n.key.rank()
            &&& ordered(n.left)
            &&& ordered(n.right)
        },
    }
}

/// `sub` is the tree `t` itself or one of its subtrees.
pub open spec fn is_subtree<K, V, A>(sub: Node<K, V, A>, t: Option<Box<Node<K, V, A>>>) -> bool
    decreases t,
{
    match t {
        None => false,
        Some(n) => *n == sub || is_subtree(sub, n.left) || is_subtree(sub, n.right),
    }
}

/// Keys of an entry sequence strictly increase.
pub open spec fn sorted_entries<K: TreeKey, V>(s: Seq<(K, V)>) -> bool {
    forall|i: int, j: int| 0 <= i < j < s.len() ==> #[trigger] s[i].0.rank() < #[trigger] s[j].0.rank()
}

/// `s` is the smallest key of `m` that ranks above `k`.
pub open spec fn is_next_key<K: TreeKey, V>(m: Map<K, V>, k: K, s: K) -> bool {
    &&& m.dom().contains(s)
    &&& s.rank() > k.rank()
    &&& forall|j: K| #[trigger] m.dom().contains(j) && j.rank() > k.rank() ==> j.rank() >= s.rank()
}

/// `p` is the largest key of `m` that ranks below `k`.
pub open spec fn is_prev_key<K: TreeKey, V>(m: Map<K, V>, k: K, p: K) -> bool {
    &&& m.dom().contains(p)
    &&& p.rank() < k.rank()
    &&& forall|j: K| #[trigger] m.dom().contains(j) && j.rank() < k.rank() ==> j.rank() <= p.rank()
}

/// `k` is the smallest key of `m`.
pub open spec fn is_min_key<K: TreeKey, V>(m: Map<K, V>, k: K) -> bool {
    &&& m.dom().contains(k)
    &&& forall|j: K| #[trigger] m.dom().contains(j) ==> k.rank() <= j.rank()
}

/// `k` is the largest key of `m`.
pub open spec fn is_max_key<K: TreeKey, V>(m: Map<K, V>, k: K) -> bool {
    &&& m.dom().contains(k)
    &&& forall|j: K| #[trigger] m.dom().contains(j) ==> j.rank() <= k.rank()
}

/// Some key of `m` ranks above `k`.
pub open spec fn has_key_above<K: TreeKey, V>(m: Map<K, V>, k: K) -> bool {
    exists|j: K| #[trigger] m.dom().contains(j) && j.rank() > k.rank()
}

/// Some key of `m` ranks below `k`.
pub open spec fn has_key_below<K: TreeKey, V>(m: Map<K, V>, k: K) -> bool {
    exists|j: K| #[trigger] m.dom().contains(j) && j.rank() < k.rank()
}

/// The map of a subtree has a finite domain whose size is the number of nodes, and its entries
/// are exactly those of the in-order sequence.
pub proof fn lemma_map_finite_size<K: TreeKey, V, A>(t: Option<Box<Node<K, V, A>>>)
    requires
        ordered(t),
    ensures
        map_of(t).dom().finite(),
        map_of(t).dom().len() == size_of(t),
        seq_of(t).len() == size_of(t),
    decreases t,
{
    match t {
        None => {},
        Some(n) => {
            lemma_map_finite_size(n.left);
            lemma_map_finite_size(n.right);
            let ml = map_of(n.left);
            let mr = map_of(n.right);
            assert(ml.dom().disjoint(mr.dom())) by {
                assert forall|k: K| ml.dom().contains(k) implies !mr.dom().contains(k) by {}
            }
            assert(!ml.union_prefer_right(mr).dom().contains(n.key));
        },
    }
}

/// The in-order sequence of an ordered subtree is sorted and holds exactly its entries.
#[verifier::spinoff_prover]
#[verifier::rlimit(30)]
pub proof fn lemma_seq_matches_map<K: TreeKey, V, A>(t: Option<Box<Node<K, V, A>>>)
    requires
        ordered(t),
    ensures
        sorted_entries(seq_of(t)),
        forall|i: int|
            0 <= i < seq_of(t).len() ==> #[trigger] map_of(t).dom().contains(seq_of(t)[i].0)
                && map_of(t)[seq_of(t)[i].0] == seq_of(t)[i].1,
        forall|k: K|
            #[trigger] map_of(t).dom().contains(k) ==> exists|i: int|
                0 <= i < seq_of(t).len() && #[trigger] seq_of(t)[i].0 == k,
    decreases t,
{
    match t {
        None => {
            assert(seq_of(t) =~= Seq::empty());
        },
        Some(n) => {
            lemma_seq_matches_map(n.left);
            lemma_seq_matches_map(n.right);
            let sl = seq_of(n.left);
            let sr = seq_of(n.right);
            let s = seq_of(t);
            let ml = map_of(n.left);
            let mr = map_of(n.right);
            assert(s == sl + seq![(n.key, n.value)] + sr);
            assert forall|i: int| 0 <= i < s.len() implies #[trigger] map_of(t).dom().contains(
                s[i].0,
            ) && map_of(t)[s[i].0] == s[i].1 by {
                if i < sl.len() {
                    assert(s[i] == sl[i]);
                    assert(ml.dom().contains(sl[i].0));
                    assert(!mr.dom().contains(sl[i].0));
                } else if i == sl.len() {
                } else {
                    assert(s[i] == sr[i - sl.len() - 1]);
                    assert(mr.dom().contains(sr[i - sl.len() - 1].0));
                }
            }
            assert forall|i: int, j: int| 0 <= i < j < s.len() implies #[trigger] s[i].0.rank()
                < #[trigger] s[j].0.rank() by {
                if j < sl.len() {
                    assert(s[i] == sl[i] && s[j] == sl[j]);
                } else if i > sl.len() {
                    assert(s[i] == sr[i - sl.len() - 1] && s[j] == sr[j - sl.len() - 1]);
                } else {
                    if i < sl.len() {
                        assert(s[i] == sl[i]);
                        assert(ml.dom().contains(sl[i].0));
                    }
                    if j > sl.len() {
                        assert(s[j] == sr[j - sl.len() - 1]);
                        assert(mr.dom().contains(sr[j - sl.len() - 1].0));
                    }
                }
            }
            assert forall|k: K| #[trigger] map_of(t).dom().contains(k) implies exists|i: int|
                0 <= i < s.len() && #[trigger] s[i].0 == k by {
                if k == n.key {
                    assert(s[sl.len() as int].0 == k);
                } else if ml.dom().contains(k) {
                    let i = choose|i: int| 0 <= i < sl.len() && #[trigger] sl[i].0 == k;
                    assert(s[i] == sl[i]);
                } else {
                    assert(mr.dom().contains(k));
                    let i = choose|i: int| 0 <= i < sr.len() && #[trigger] sr[i].0 == k;
                    assert(s[i + sl.len() + 1] == sr[i]);
                }
            }
        },
    }
}

/// The height of a subtree never exceeds its number of nodes.
pub proof fn lemma_height_le_size<K, V, A>(t: Option<Box<Node<K, V, A>>>)
    ensures
        height_of(t) <= size_of(t),
    decreases t,
{
    if let Some(n) = t {
        lemma_height_le_size(n.left);
        lemma_height_le_size(n.right);
    }
}

/// A subtree of an ordered tree is ordered, and its entries are entries of the tree.
pub proof fn lemma_subtree_facts<K: TreeKey, V, A>(sub: Node<K, V, A>, t: Option<Box<Node<K, V, A>>>)
    requires
        ordered(t),
        is_subtree(sub, t),
    ensures
        ordered(Some(Box::new(sub))),
        entries_within(map_of(Some(Box::new(sub))), map_of(t)),
        size_of(Some(Box::new(sub))) <= size_of(t),
    decreases t,
{
    let n = t.unwrap();
    if *n == sub {
    } else if is_subtree(sub, n.left) {
        lemma_subtree_facts(sub, n.left);
        lemma_map_facts(n);
    } else {
        lemma_subtree_facts(sub, n.right);
        lemma_map_facts(n);
    }
}

/// The entries of the children of an ordered node are entries of the node, and every key of
/// the node is its own key or a key of one child.
pub proof fn lemma_map_facts<K: TreeKey, V, A>(n: Box<Node<K, V, A>>)
    requires
        ordered(Some(n)),
    ensures
        entries_within(map_of(n.left), map_of(Some(n))),
        entries_within(map_of(n.right), map_of(Some(n))),
        map_of(Some(n)).dom().contains(n.key),
        map_of(Some(n))[n.key] == n.value,
        forall|j: K| #[trigger] map_of(Some(n)).dom().contains(j) ==> j == n.key
            || (map_of(n.left).dom().contains(j) && j.rank() < n.key.rank())
            || (map_of(n.right).dom().contains(j) && j.rank() > n.key.rank()),
{
    let ml = map_of(n.left);
    assert forall|k: K| #[trigger] ml.dom().contains(k) implies map_of(Some(n)).dom().contains(k)
        && map_of(Some(n))[k] == ml[k] by {
        assert(!map_of(n.right).dom().contains(k));
    }
}

/// Every entry of `a` is an entry of `b`.
pub open spec fn entries_within<K, V>(a: Map<K, V>, b: Map<K, V>) -> bool {
    forall|k: K| #[trigger] a.dom().contains(k) ==> b.dom().contains(k) && a[k] == b[k]
}

/// A subtree of a subtree is a subtree.
pub proof fn lemma_subtree_trans<K, V, A>(
    a: Node<K, V, A>,
    b: Node<K, V, A>,
    t: Option<Box<Node<K, V, A>>>,
)
    requires
        is_subtree(a, Some(Box::new(b))),
        is_subtree(b, t),
    ensures
        is_subtree(a, t),
    decreases t,
{
    let n = t.unwrap();
    if *n == b {
        assert(Some(Box::new(b)) == Some(n));
    } else if is_subtree(b, n.left) {
        lemma_subtree_trans(a, b, n.left);
    } else {
        lemma_subtree_trans(a, b, n.right);
    }
}

/// The children of a subtree are subtrees.
pub proof fn lemma_children_are_subtrees<K, V, A>(b: Node<K, V, A>, t: Option<Box<Node<K, V, A>>>)
    requires
        is_subtree(b, t),
    ensures
        b.left matches Some(l) ==> is_subtree(*l, t),
        b.right matches Some(r) ==> is_subtree(*r, t),
{
    if let Some(l) = b.left {
        assert(is_subtree(*l, b.left));
        assert(is_subtree(*l, Some(Box::new(b))));
        lemma_subtree_trans(*l, b, t);
    }
    if let Some(r) = b.right {
        assert(is_subtree(*r, b.right));
        assert(is_subtree(*r, Some(Box::new(b))));
        lemma_subtree_trans(*r, b, t);
    }
}

/// The key of a subtree is a key of the tree, stored with the subtree's value.
pub proof fn lemma_subtree_key<K: TreeKey, V, A>(sub: Node<K, V, A>, t: Option<Box<Node<K, V, A>>>)
    requires
        ordered(t),
        is_subtree(sub, t),
    ensures
        map_of(t).dom().contains(sub.key),
        map_of(t)[sub.key] == sub.value,
{
    lemma_subtree_facts(sub, t);
    lemma_map_facts(Box::new(sub));
}

/// `c` is a child of `n`.
pub open spec fn is_child<K, V, A>(c: Node<K, V, A>, n: Node<K, V, A>) -> bool {
    n.left == Some(Box::new(c)) || n.right == Some(Box::new(c))
}

/// A child of a subtree of `t` is not `t`'s root: it is smaller than its parent, which is no
/// larger than the whole tree.
pub proof fn lemma_child_smaller<K: TreeKey, V, A>(
    c: Node<K, V, A>,
    n: Node<K, V, A>,
    t: Option<Box<Node<K, V, A>>>,
)
    requires
        ordered(t),
        is_subtree(n, t),
        is_child(c, n),
    ensures
        t != Some(Box::new(c)),
{
    lemma_subtree_facts(n, t);
    assert(size_of(Some(Box::new(c))) < size_of(Some(Box::new(n))));
}

/// In an ordered tree a node has one parent: two subtrees that both have `c` as a child are the
/// same subtree.
pub proof fn lemma_parent_unique<K: TreeKey, V, A>(
    p: Node<K, V, A>,
    q: Node<K, V, A>,
    c: Node<K, V, A>,
    t: Option<Box<Node<K, V, A>>>,
)
    requires
        ordered(t),
        is_subtree(p, t),
        is_subtree(q, t),
        is_child(c, p),
        is_child(c, q),
    ensures
        p == q,
    decreases t,
{
    let r = t.unwrap();
    lemma_children_are_subtrees(p, t);
    lemma_children_are_subtrees(q, t);
    lemma_subtree_facts(p, t);
    lemma_subtree_facts(q, t);
    assert(is_subtree(c, p.left) || is_subtree(c, p.right));
    assert(is_subtree(c, q.left) || is_subtree(c, q.right));
    assert(is_subtree(c, Some(Box::new(p))));
    assert(is_subtree(c, Some(Box::new(q))));
    lemma_subtree_facts(c, Some(Box::new(p)));
    lemma_subtree_facts(c, Some(Box::new(q)));
    lemma_map_facts(r);
    assert(size_of(Some(Box::new(c))) < size_of(Some(Box::new(p))));
    assert(size_of(Some(Box::new(c))) < size_of(Some(Box::new(q))));
    if p == *r && q == *r {
    } else if p == *r || q == *r {
        // The other one lies below a child of the root, and so does `c`; but `c` is that child.
        let (other, top) = if p == *r {
            (q, p)
        } else {
            (p, q)
        };
        assert(is_subtree(other, r.left) || is_subtree(other, r.right));
        if is_subtree(other, r.left) {
            lemma_subtree_facts(other, r.left);
            lemma_subtree_trans(c, other, r.left);
            lemma_subtree_facts(c, r.left);
            lemma_subtree_key(c, r.left);
            if r.left == Some(Box::new(c)) {
                assert(size_of(Some(Box::new(other))) <= size_of(r.left));
            } else {
                assert(r.right == Some(Box::new(c)));
                lemma_map_facts(Box::new(c));
                assert(map_of(r.right).dom().contains(c.key));
            }
        } else {
            lemma_subtree_facts(other, r.right);
            lemma_subtree_trans(c, other, r.right);
            lemma_subtree_facts(c, r.right);
            lemma_subtree_key(c, r.right);
            if r.right == Some(Box::new(c)) {
                assert(size_of(Some(Box::new(other))) <= size_of(r.right));
            } else {
                assert(r.left == Some(Box::new(c)));
                lemma_map_facts(Box::new(c));
                assert(map_of(r.left).dom().contains(c.key));
            }
        }
    } else {
        // Both lie below the root on the side of `c`'s key.
        if is_subtree(p, r.left) {
            lemma_subtree_trans(c, p, r.left);
            lemma_subtree_key(c, r.left);
        } else {
            lemma_subtree_trans(c, p, r.right);
            lemma_subtree_key(c, r.right);
        }
        if is_subtree(q, r.left) {
            lemma_subtree_trans(c, q, r.left);
            lemma_subtree_key(c, r.left);
        } else {
            lemma_subtree_trans(c, q, r.right);
            lemma_subtree_key(c, r.right);
        }
        if is_subtree(p, r.left) && is_subtree(q, r.left) {
            lemma_parent_unique(p, q, c, r.left);
        } else if is_subtree(p, r.right) && is_subtree(q, r.right) {
            lemma_parent_unique(p, q, c, r.right);
        }
    }
}

/// In an ordered tree a subtree is determined by its key; a subtree whose key ranks below
/// (above) the root lies in the left (right) subtree.
pub proof fn lemma_subtree_unique<K: TreeKey, V, A>(
    s1: Node<K, V, A>,
    s2: Node<K, V, A>,
    t: Option<Box<Node<K, V, A>>>,
)
    requires
        ordered(t),
        is_subtree(s1, t),
        is_subtree(s2, t),
        s1.key == s2.key,
    ensures
        s1 == s2,
    decreases t,
{
    let n = t.unwrap();
    lemma_subtree_descend(s1, n);
    lemma_subtree_descend(s2, n);
    if s1.key == n.key {
    } else if s1.key.rank() < n.key.rank() {
        lemma_subtree_unique(s1, s2, n.left);
    } else {
        lemma_subtree_unique(s1, s2, n.right);
    }
}

/// Where a subtree of an ordered node lies, by its key.
pub proof fn lemma_subtree_descend<K: TreeKey, V, A>(sub: Node<K, V, A>, n: Box<Node<K, V, A>>)
    requires
        ordered(Some(n)),
        is_subtree(sub, Some(n)),
    ensures
        sub.key == n.key ==> sub == *n,
        sub.key.rank() < n.key.rank() ==> is_subtree(sub, n.left),
        sub.key.rank() > n.key.rank() ==> is_subtree(sub, n.right),
        sub.key.rank() == n.key.rank() ==> sub == *n,
{
    if is_subtree(sub, n.left) {
        lemma_subtree_key(sub, n.left);
    }
    if is_subtree(sub, n.right) {
        lemma_subtree_key(sub, n.right);
    }
}

/// Looks up `key` in a subtree.
pub fn find_node<'a, K: TreeKey, V, A>(t: &'a Option<Box<Node<K, V, A>>>, key: &K) -> (r: Option<
    &'a Node<K, V, A>,
>)
    requires
        ordered(*t),
    ensures
        r is Some <==> map_of(*t).dom().contains(*key),
        r matches Some(n) ==> n.key == *key && n.value == map_of(*t)[*key] && is_subtree(*n, *t),
{
    let mut cur: &'a Option<Box<Node<K, V, A>>> = t;
    loop
        invariant
            ordered(*cur),
            entries_within(map_of(*cur), map_of(*t)),
            map_of(*t).dom().contains(*key) ==> map_of(*cur).dom().contains(*key),
            forall|s: Node<K, V, A>| is_subtree(s, *cur) ==> is_subtree(s, *t),
        decreases *cur,
    {
        match cur {
            None => {
                return None;
            },
            Some(n) => {
                proof {
                    lemma_map_facts(*n);
                }
                match key.compare(&n.key) {
                    KeyOrder::Equal => {
                        assert(map_of(*cur).dom().contains(n.key));
                        assert(is_subtree(**n, *cur));
                        assert(map_of(*cur)[n.key] == n.value);

                        return Some(&**n);
                    },
                    KeyOrder::Less => {
                        cur = &n.left;
                    },
                    KeyOrder::Greater => {
                        cur = &n.right;
                    },
                }
            },
        }
    }
}


/// The entry with the smallest key of a non-empty subtree.
pub fn min_node<'a, K: TreeKey, V, A>(t: &'a Option<Box<Node<K, V, A>>>) -> (r: Option<&'a Node<K, V, A>>)
    requires
        ordered(*t),
    ensures
        r is Some <==> t is Some,
        r matches Some(n) ==> is_min_key(map_of(*t), n.key) && map_of(*t)[n.key] == n.value
            && is_subtree(*n, *t),
{
    match t {
        None => None,
        Some(root) => {
            let mut cur: &'a Box<Node<K, V, A>> = root;
            loop
                invariant
                    ordered(Some(*cur)),
                    is_subtree(**cur, *t),
                    ordered(*t),
                    forall|j: K| #[trigger] map_of(*t).dom().contains(j) ==> map_of(Some(*cur)).dom().contains(j)
                        || j.rank() > cur.key.rank(),
                decreases *cur,
            {
                proof {
                    lemma_map_facts(*cur);
                }
                match &cur.left {
                    None => {
                        proof {
                            lemma_subtree_key(**cur, *t);
                        }
                        return Some(&**cur);
                    },
                    Some(l) => {
                        proof {
                            lemma_children_are_subtrees(**cur, *t);
                            lemma_map_facts(*l);
                        }
                        cur = l;
                    },
                }
            }
        },
    }
}

/// The entry with the largest key of a non-empty subtree.
pub fn max_node<'a, K: TreeKey, V, A>(t: &'a Option<Box<Node<K, V, A>>>) -> (r: Option<&'a Node<K, V, A>>)
    requires
        ordered(*t),
    ensures
        r is Some <==> t is Some,
        r matches Some(n) ==> is_max_key(map_of(*t), n.key) && map_of(*t)[n.key] == n.value
            && is_subtree(*n, *t),
{
    match t {
        None => None,
        Some(root) => {
            let mut cur: &'a Box<Node<K, V, A>> = root;
            loop
                invariant
                    ordered(Some(*cur)),
                    is_subtree(**cur, *t),
                    ordered(*t),
                    forall|j: K| #[trigger] map_of(*t).dom().contains(j) ==> map_of(Some(*cur)).dom().contains(j)
                        || j.rank() < cur.key.rank(),
                decreases *cur,
            {
                proof {
                    lemma_map_facts(*cur);
                }
                match &cur.right {
                    None => {
                        proof {
                            lemma_subtree_key(**cur, *t);
                        }
                        return Some(&**cur);
                    },
                    Some(r) => {
                        proof {
                            lemma_children_are_subtrees(**cur, *t);
                            lemma_map_facts(*r);
                        }
                        cur = r;
                    },
                }
            }
        },
    }
}

/// The entry whose key is the smallest one ranking above `key`.
pub fn next_node<'a, K: TreeKey, V, A>(t: &'a Option<Box<Node<K, V, A>>>, key: &K) -> (r: Option<
    &'a Node<K, V, A>,
>)
    requires
        ordered(*t),
    ensures
        r is Some <==> has_key_above(map_of(*t), *key),
        r matches Some(n) ==> is_next_key(map_of(*t), *key, n.key) && map_of(*t)[n.key] == n.value
            && is_subtree(*n, *t),
{
    let mut cur: &'a Option<Box<Node<K, V, A>>> = t;
    let mut cand: Option<&'a Node<K, V, A>> = None;
    loop
        invariant
            ordered(*cur),
            ordered(*t),
            entries_within(map_of(*cur), map_of(*t)),
            forall|s: Node<K, V, A>| is_subtree(s, *cur) ==> is_subtree(s, *t),
            cand matches Some(c) ==> map_of(*t).dom().contains(c.key) && map_of(*t)[c.key] == c.value
                && c.key.rank() > key.rank() && is_subtree(*c, *t) && forall|j: K| #[trigger]
                map_of(*cur).dom().contains(j) ==> j.rank() < c.key.rank(),
            forall|j: K| #[trigger] map_of(*t).dom().contains(j) && j.rank() > key.rank() ==> map_of(
                *cur,
            ).dom().contains(j) || (cand matches Some(c) && j.rank() >= c.key.rank()),
        decreases *cur,
    {
        match cur {
            None => {
                return cand;
            },
            Some(n) => {
                proof {
                    lemma_map_facts(*n);
                    assert(is_subtree(**n, *cur));
                }
                match key.compare(&n.key) {
                    KeyOrder::Less => {
                        cand = Some(&**n);
                        cur = &n.left;
                    },
                    _ => {
                        cur = &n.right;
                    },
                }
            },
        }
    }
}

/// The entry whose key is the largest one ranking below `key`.
pub fn prev_node<'a, K: TreeKey, V, A>(t: &'a Option<Box<Node<K, V, A>>>, key: &K) -> (r: Option<
    &'a Node<K, V, A>,
>)
    requires
        ordered(*t),
    ensures
        r is Some <==> has_key_below(map_of(*t), *key),
        r matches Some(n) ==> is_prev_key(map_of(*t), *key, n.key) && map_of(*t)[n.key] == n.value
            && is_subtree(*n, *t),
{
    let mut cur: &'a Option<Box<Node<K, V, A>>> = t;
    let mut cand: Option<&'a Node<K, V, A>> = None;
    loop
        invariant
            ordered(*cur),
            ordered(*t),
            entries_within(map_of(*cur), map_of(*t)),
            forall|s: Node<K, V, A>| is_subtree(s, *cur) ==> is_subtree(s, *t),
            cand matches Some(c) ==> map_of(*t).dom().contains(c.key) && map_of(*t)[c.key] == c.value
                && c.key.rank() < key.rank() && is_subtree(*c, *t) && forall|j: K| #[trigger]
                map_of(*cur).dom().contains(j) ==> j.rank() > c.key.rank(),
            forall|j: K| #[trigger] map_of(*t).dom().contains(j) && j.rank() < key.rank() ==> map_of(
                *cur,
            ).dom().contains(j) || (cand matches Some(c) && j.rank() <= c.key.rank()),
        decreases *cur,
    {
        match cur {
            None => {
                return cand;
            },
            Some(n) => {
                proof {
                    lemma_map_facts(*n);
                    assert(is_subtree(**n, *cur));
                }
                match key.compare(&n.key) {
                    KeyOrder::Greater => {
                        cand = Some(&**n);
                        cur = &n.right;
                    },
                    _ => {
                        cur = &n.left;
                    },
                }
            },
        }
    }
}

/// Height of a subtree, counted in nodes.
pub fn height_link<K, V, A>(t: &Option<Box<Node<K, V, A>>>) -> (h: usize)
    requires
        size_of(*t) <= usize::MAX,
    ensures
        h == height_of(*t),
    decreases *t,
{
    match t {
        None => 0,
        Some(n) => {
            proof {
                lemma_height_le_size(n.left);
                lemma_height_le_size(n.right);
            }
            let hl = height_link(&n.left);
            let hr = height_link(&n.right);
            if hl >= hr {
                hl + 1
            } else {
                hr + 1
            }
        },
    }
}

/// The map that inserting `s` entry by entry builds: a later entry replaces an earlier one
/// with an equal key.
pub open spec fn entries_to_map<K, V>(s: Seq<(K, V)>) -> Map<K, V>
    decreases s.len(),
{
    if s.len() == 0 {
        Map::empty()
    } else {
        entries_to_map(s.drop_last()).insert(s.last().0, s.last().1)
    }
}

/// The map built from `s` is finite and has at most as many keys as `s` has entries.
pub proof fn lemma_entries_to_map_len<K, V>(s: Seq<(K, V)>)
    ensures
        entries_to_map(s).dom().finite(),
        entries_to_map(s).len() <= s.len(),
    decreases s.len(),
{
    if s.len() > 0 {
        lemma_entries_to_map_len(s.drop_last());
    }
}

} // verus!
