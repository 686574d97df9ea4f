//! The container shared by the binary tree kinds: a root link and an entry count, with the
//! read-only operations that do not depend on how a tree kind balances itself.
use vstd::prelude::*;

use crate::key::TreeKey;
use crate::trees::node::{
    find_node, height_link, height_of, is_max_key, is_min_key, lemma_height_le_size,
    lemma_map_finite_size, lemma_seq_matches_map, map_of, max_node, min_node, ordered, seq_of,
    size_of, Node,
};
use crate::trees::node_ref::NodeRef;

verus! {

/// The balancing data a tree kind keeps in its nodes, and the shape rule it maintains.
pub trait Shape<K, V>: Sized {
    /// The kind's structural rule holds of the subtree.
    spec fn shape_ok(t: Option<Box<Node<K, V, Self>>>) -> bool;

    /// The empty tree satisfies the rule.
    proof fn lemma_empty_shape()
        ensures
            Self::shape_ok(None),
    ;
}

/// No balancing data: the plain binary search tree.
impl<K, V> Shape<K, V> for () {
    open spec fn shape_ok(t: Option<Box<Node<K, V, Self>>>) -> bool {
        true
    }

    proof fn lemma_empty_shape() {
    }
}

/// A binary search tree of one kind: its root link and number of entries.
pub struct BinTree<K: TreeKey, V, A: Shape<K, V>> {
    pub(crate) root: Option<Box<Node<K, V, A>>>,
    pub(crate) len: usize,
}

impl<K: TreeKey, V, A: Shape<K, V>> View for BinTree<K, V, A> {
    type V = Map<K, V>;

    open spec fn view(&self) -> Map<K, V> {
        map_of(self.link())
    }
}

/// Collects clones of the entries of a subtree, in order, after those already in `out`.
fn collect_entries<K: TreeKey + Clone, V: Clone, A>(
    t: &Option<Box<Node<K, V, A>>>,
    out: &mut Vec<(K, V)>,
)
    ensures
        final(out)@.len() == old(out)@.len() + seq_of(*t).len(),
        forall|i: int| 0 <= i < old(out)@.len() ==> final(out)@[i] == old(out)@[i],
        forall|i: int|
            0 <= i < seq_of(*t).len() ==> cloned((#[trigger] seq_of(*t)[i]).0, final(out)@[old(
                out,
            )@.len() + i].0) && cloned(seq_of(*t)[i].1, final(out)@[old(out)@.len() + i].1),
    decreases *t,
{
    match t {
        None => {},
        Some(n) => {
            let ghost o0 = out@;
            collect_entries(&n.left, out);
            let ghost o1 = out@;
            out.push((n.key.clone(), n.value.clone()));
            let ghost o2 = out@;
            collect_entries(&n.right, out);
            proof {
                let sl = seq_of(n.left);
                let s = seq_of(*t);
                assert(s == sl + seq![(n.key, n.value)] + seq_of(n.right));
                assert forall|i: int| 0 <= i < s.len() implies cloned(
                    (#[trigger] s[i]).0,
                    out@[o0.len() + i].0,
                ) && cloned(s[i].1, out@[o0.len() + i].1) by {
                    if i < sl.len() {
                        assert(s[i] == sl[i]);
                        assert(out@[o0.len() + i] == o1[o0.len() + i]);
                    } else if i == sl.len() {
                        assert(out@[o0.len() + i] == o2[o1.len() as int]);
                    } else {
                        assert(s[i] == seq_of(n.right)[i - sl.len() - 1]);
                        assert(o0.len() + i == o2.len() + (i - sl.len() - 1));
                    }
                }
            }
        },
    }
}

impl<K: TreeKey, V, A: Shape<K, V>> BinTree<K, V, A> {
    /// The tree is ordered, counts its entries and keeps the shape rule of its kind.
    pub open(crate) spec fn wf(&self) -> bool {
        &&& ordered(self.root)
        &&& self.len == size_of(self.root)
        &&& A::shape_ok(self.root)
    }

    /// The root link of the tree.
    pub open(crate) spec fn link(&self) -> Option<Box<Node<K, V, A>>> {
        self.root
    }

    /// What the invariant guarantees of any tree.
    pub proof fn lemma_inv(&self)
        requires
            self.wf(),
        ensures
            ordered(self.link()),
            A::shape_ok(self.link()),
            self@.dom().finite(),
            self@.len() == size_of(self.link()),
            size_of(self.link()) <= usize::MAX,
            seq_of(self.link()).len() == self@.len(),
    {
        lemma_map_finite_size(self.root);
    }

    /// An empty tree.
    pub fn new() -> (r: Self)
        ensures
            r.wf(),
            r@ == Map::<K, V>::empty(),
    {
        proof {
            A::lemma_empty_shape();
        }
        BinTree { root: None, len: 0 }
    }

    /// Number of entries.
    pub fn len(&self) -> (r: usize)
        requires
            self.wf(),
        ensures
            r == self@.len(),
    {
        proof {
            lemma_map_finite_size(self.root);
        }
        self.len
    }

    /// Whether the tree holds no entry.
    pub fn is_empty(&self) -> (r: bool)
        requires
            self.wf(),
        ensures
            r == (self@.len() == 0),
    {
        proof {
            lemma_map_finite_size(self.root);
        }
        self.len == 0
    }

    /// Removes every entry.
    pub fn clear(&mut self)
        ensures
            final(self).wf(),
            final(self)@ == Map::<K, V>::empty(),
    {
        proof {
            A::lemma_empty_shape();
        }
        *self = BinTree { root: None, len: 0 };
    }

    /// The position of `key`, if present.
    pub fn cursor<'a>(&'a self, key: &K) -> (r: Option<NodeRef<'a, K, V, A>>)
        requires
            self.wf(),
        ensures
            r is Some <==> self@.dom().contains(*key),
            r matches Some(p) ==> p.wf() && p.tree_map() == self@ && *p.root == self.link() && p.node.key == *key
                && p.node.value == self@[*key],
    {
        match find_node(&self.root, key) {
            None => None,
            Some(n) => Some(NodeRef::at(&self.root, n)),
        }
    }

    /// Whether `key` is present.
    pub fn contains_key(&self, key: &K) -> (r: bool)
        requires
            self.wf(),
        ensures
            r == self@.dom().contains(*key),
    {
        find_node(&self.root, key).is_some()
    }

    /// The position of the smallest key, if the tree is not empty.
    pub fn min_cursor<'a>(&'a self) -> (r: Option<NodeRef<'a, K, V, A>>)
        requires
            self.wf(),
        ensures
            r is Some <==> self@.len() > 0,
            r matches Some(p) ==> p.wf() && p.tree_map() == self@ && *p.root == self.link() && is_min_key(self@, p.node.key)
                && p.node.value == self@[p.node.key],
    {
        proof {
            lemma_map_finite_size(self.root);
        }
        match min_node(&self.root) {
            None => None,
            Some(n) => Some(NodeRef::at(&self.root, n)),
        }
    }

    /// The position of the largest key, if the tree is not empty.
    pub fn max_cursor<'a>(&'a self) -> (r: Option<NodeRef<'a, K, V, A>>)
        requires
            self.wf(),
        ensures
            r is Some <==> self@.len() > 0,
            r matches Some(p) ==> p.wf() && p.tree_map() == self@ && *p.root == self.link() && is_max_key(self@, p.node.key)
                && p.node.value == self@[p.node.key],
    {
        proof {
            lemma_map_finite_size(self.root);
        }
        match max_node(&self.root) {
            None => None,
            Some(n) => Some(NodeRef::at(&self.root, n)),
        }
    }

    /// The position of the root node, if the tree is not empty.
    pub fn root_ref<'a>(&'a self) -> (r: Option<NodeRef<'a, K, V, A>>)
        requires
            self.wf(),
        ensures
            r is Some <==> self@.len() > 0,
            r matches Some(p) ==> p.wf() && p.tree_map() == self@ && *p.root == self.link() && self.link() == Some(
                Box::new(*p.node),
            ),
    {
        proof {
            lemma_map_finite_size(self.root);
        }
        match &self.root {
            None => None,
            Some(n) => {
                proof {
                    assert(crate::trees::node::is_subtree(**n, self.root));
                }
                Some(NodeRef::at(&self.root, &**n))
            },
        }
    }

    /// Number of nodes on the longest root-to-leaf path.
    pub fn height(&self) -> (r: usize)
        requires
            self.wf(),
        ensures
            r == height_of(self.link()),
    {
        height_link(&self.root)
    }

    /// Height of the subtree below a position of this tree.
    pub fn node_height(&self, p: &NodeRef<K, V, A>) -> (r: usize)
        requires
            self.wf(),
            p.wf(),
            *p.root == self.link(),
        ensures
            r == height_of(Some(Box::new(*p.node))),
    {
        p.subtree_height()
    }

    /// Clones of all entries, in increasing key order.
    pub fn entries(&self) -> (r: Vec<(K, V)>) where K: Clone, V: Clone
        requires
            self.wf(),
        ensures
            r@.len() == seq_of(self.link()).len(),
            forall|i: int|
                0 <= i < r@.len() ==> cloned(seq_of(self.link())[i].0, #[trigger] r@[i].0)
                    && cloned(seq_of(self.link())[i].1, r@[i].1),
    {
        let mut out: Vec<(K, V)> = Vec::new();
        collect_entries(&self.root, &mut out);
        proof {
            assert forall|i: int| 0 <= i < out@.len() implies cloned(
                seq_of(self.link())[i].0,
                #[trigger] out@[i].0,
            ) && cloned(seq_of(self.link())[i].1, out@[i].1) by {
                assert(seq_of(self.root)[i] == seq_of(self.root)[i]);
                assert(out@[0 + i] == out@[i]);
            }
        }
        out
    }
}

} // verus!
