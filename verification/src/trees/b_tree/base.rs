//! The B-tree container shared by the variants: the root node, the number of entries and the
//! minimum degree; with references to its nodes and positions at its entries.
use vstd::prelude::*;

use crate::key::TreeKey;
use crate::trees::b_tree::engine::{
    bdepth, bseq, bsub, bvalid, entries_map, lemma_entries_map_at, lemma_key_in_node, BNode,
};
use crate::trees::b_tree::insert::{degree_ok, insert_nonfull, put_result, split_child};
use crate::trees::b_tree::layout::lemma_single_child;
use crate::trees::b_tree::remove::{remove_rec, take_result};
use crate::trees::b_tree::search::{
    bcount, bmap, count_nodes, find_parent, first_entry, last_entry, lemma_bsub_child,
    lemma_bsub_refl, lemma_bsub_within, lemma_depth_below_len, next_above, prev_below, search,
    subtree_height,
};
use crate::trees::b_tree::sorted::{
    fits_at, lemma_entries_len, lemma_next_at, lemma_none_above, lemma_none_below, lemma_prev_at,
    lemma_sorted_ends, lemma_sorted_insert, lemma_sorted_remove, lemma_sorted_update,
};
use crate::trees::node::{
    has_key_above, has_key_below, is_max_key, is_min_key, is_next_key, is_prev_key,
    sorted_entries,
};

verus! {

/// A valid root of minimum degree `t`: a valid subtree holding between 1 and `2t - 1` keys.
pub open spec fn root_ok<K: TreeKey, V>(r: BNode<K, V>, t: nat) -> bool {
    &&& t >= 2
    &&& bvalid(r, t)
    &&& 1 <= r.keys@.len() <= 2 * t - 1
    &&& bseq(r).len() <= usize::MAX
}

/// The entries of the tree with the given root, in key order.
pub open spec fn root_seq<K, V>(root: Option<BNode<K, V>>) -> Seq<(K, V)> {
    match root {
        None => Seq::empty(),
        Some(r) => bseq(r),
    }
}

/// A B-tree: its root node, if any, its number of entries and its minimum degree.
pub struct BTreeBase<K, V> {
    pub(crate) root: Option<BNode<K, V>>,
    pub(crate) len: usize,
    pub(crate) t: usize,
}

impl<K, V> View for BTreeBase<K, V> {
    type V = Map<K, V>;

    open spec fn view(&self) -> Map<K, V> {
        entries_map(root_seq(self.root_node()))
    }
}

impl<K, V> BTreeBase<K, V> {
    /// The root node, if any.
    pub open(crate) spec fn root_node(&self) -> Option<BNode<K, V>> {
        self.root
    }

    /// The minimum degree.
    pub open(crate) spec fn min_degree(&self) -> usize {
        self.t
    }
}

/// A reference to one node of a B-tree, together with the tree's root.
pub struct BRef<'a, K, V> {
    pub(crate) root: &'a BNode<K, V>,
    pub(crate) node: &'a BNode<K, V>,
    pub(crate) t: Ghost<nat>,
}

/// A position at one entry of a B-tree: a node reference and a key index in that node.
pub struct BPos<'a, K, V> {
    pub(crate) at: BRef<'a, K, V>,
    pub(crate) index: usize,
}

impl<'a, K, V> Clone for BRef<'a, K, V> {
    fn clone(&self) -> (r: Self)
        ensures
            r == *self,
    {
        BRef { root: self.root, node: self.node, t: self.t }
    }
}

impl<'a, K, V> Clone for BPos<'a, K, V> {
    fn clone(&self) -> (r: Self)
        ensures
            r == *self,
    {
        BPos { at: self.at.clone(), index: self.index }
    }
}

impl<'a, K, V> BRef<'a, K, V> {
    /// The node referred to.
    pub open(crate) spec fn node(&self) -> BNode<K, V> {
        *self.node
    }

    /// The root of the tree the node belongs to.
    pub open(crate) spec fn root_node(&self) -> BNode<K, V> {
        *self.root
    }

    /// The minimum degree of the tree the node belongs to.
    pub open(crate) spec fn deg(&self) -> nat {
        self.t@
    }
}

impl<'a, K: TreeKey, V> BRef<'a, K, V> {
    /// The reference points at a node of a valid tree.
    pub open(crate) spec fn wf(&self) -> bool {
        root_ok(self.root_node(), self.deg()) && bsub(self.node(), self.root_node())
    }

    /// The node is valid and its entries are entries of the tree.
    pub proof fn lemma_node(&self)
        requires
            self.wf(),
        ensures
            bvalid(self.node(), self.deg()),
            bdepth(self.node()) <= bdepth(self.root_node()),
            self.node().keys@.len() >= 1,
            self.node().keys@.len() == self.node().values@.len(),
            forall|i: int|
                0 <= i < self.node().keys@.len() ==> bmap(self.root_node()).dom().contains(
                    #[trigger] self.node().keys@[i],
                ) && bmap(self.root_node())[self.node().keys@[i]] == self.node().values@[i],
    {
        lemma_bsub_within(*self.node, *self.root, self.t@);
        assert forall|i: int| 0 <= i < self.node().keys@.len() implies bmap(
            self.root_node(),
        ).dom().contains(#[trigger] self.node().keys@[i]) && bmap(self.root_node())[self.node().keys@[i]]
            == self.node().values@[i] by {
            lemma_key_in_node(*self.node, i);
        }
    }

    /// Clones of the node's keys.
    pub fn keys(&self) -> (r: Vec<K>) where K: Clone
        ensures
            r@.len() == self.node().keys@.len(),
            forall|i: int| 0 <= i < r@.len() ==> cloned(self.node().keys@[i], #[trigger] r@[i]),
    {
        let node: &'a BNode<K, V> = self.node;
        let mut out: Vec<K> = Vec::new();
        let mut i: usize = 0;
        while i < node.keys.len()
            invariant
                i <= node.keys@.len(),
                out@.len() == i,
                forall|j: int| 0 <= j < i ==> cloned(node.keys@[j], #[trigger] out@[j]),
            decreases node.keys@.len() - i,
        {
            out.push(node.keys[i].clone());
            i = i + 1;
        }
        out
    }

    /// Clones of the node's entries, key by key.
    pub fn entries(&self) -> (r: Vec<(K, V)>) where K: Clone, V: Clone
        requires
            self.wf(),
        ensures
            r@.len() == self.node().keys@.len(),
            forall|i: int|
                0 <= i < r@.len() ==> cloned(self.node().keys@[i], (#[trigger] r@[i]).0) && cloned(
                    self.node().values@[i],
                    r@[i].1,
                ),
    {
        proof {
            self.lemma_node();
        }
        let node: &'a BNode<K, V> = self.node;
        let mut out: Vec<(K, V)> = Vec::new();
        let mut i: usize = 0;
        while i < node.keys.len()
            invariant
                i <= node.keys@.len(),
                node.keys@.len() == node.values@.len(),
                out@.len() == i,
                forall|j: int|
                    0 <= j < i ==> cloned(node.keys@[j], (#[trigger] out@[j]).0) && cloned(
                        node.values@[j],
                        out@[j].1,
                    ),
            decreases node.keys@.len() - i,
        {
            out.push((node.keys[i].clone(), node.values[i].clone()));
            i = i + 1;
        }
        out
    }

    /// Number of keys in the node.
    pub fn key_count(&self) -> (r: usize)
        ensures
            r == self.node().keys@.len(),
    {
        self.node.keys.len()
    }

    /// Whether the node has no children.
    pub fn is_leaf(&self) -> (r: bool)
        ensures
            r == (self.node().children@.len() == 0),
    {
        self.node.children.len() == 0
    }

    /// References to the node's children, in order.
    pub fn children(&self) -> (r: Vec<BRef<'a, K, V>>)
        requires
            self.wf(),
        ensures
            r@.len() == self.node().children@.len(),
            forall|i: int|
                0 <= i < r@.len() ==> (#[trigger] r@[i]).wf() && r@[i].node()
                    == self.node().children@[i] && r@[i].root_node() == self.root_node()
                    && r@[i].deg() == self.deg(),
    {
        let node: &'a BNode<K, V> = self.node;
        let mut out: Vec<BRef<'a, K, V>> = Vec::new();
        let mut i: usize = 0;
        while i < node.children.len()
            invariant
                self.wf(),
                node == self.node,
                i <= node.children@.len(),
                out@.len() == i,
                forall|j: int|
                    0 <= j < i ==> (#[trigger] out@[j]).wf() && out@[j].node() == node.children@[j]
                        && out@[j].root_node() == self.root_node() && out@[j].deg() == self.deg(),
            decreases node.children@.len() - i,
        {
            proof {
                lemma_bsub_child(*node, *self.root, i as int);
            }
            out.push(BRef { root: self.root, node: &node.children[i], t: self.t });
            i = i + 1;
        }
        out
    }

    /// A reference to the node's parent; `None` exactly at the root.
    pub fn parent(&self) -> (r: Option<BRef<'a, K, V>>)
        requires
            self.wf(),
        ensures
            r is None <==> self.node() == self.root_node(),
            r matches Some(p) ==> p.wf() && p.root_node() == self.root_node() && p.deg()
                == self.deg() && exists|i: int|
                0 <= i < p.node().children@.len() && #[trigger] p.node().children@[i]
                    == self.node(),
    {
        match find_parent(self.root, self.node, Ghost(self.t@)) {
            None => None,
            Some(p) => Some(BRef { root: self.root, node: p, t: self.t }),
        }
    }

    /// Number of nodes on a path from the node down to a leaf.
    pub fn height(&self) -> (r: usize)
        requires
            self.wf(),
        ensures
            r == bdepth(self.node()) + 1,
    {
        proof {
            self.lemma_node();
            lemma_depth_below_len(*self.root, self.t@);
        }
        subtree_height(self.node)
    }
}

impl<'a, K, V> BPos<'a, K, V> {
    /// The node reference of the position.
    pub open(crate) spec fn node_ref(&self) -> BRef<'a, K, V> {
        self.at
    }

    /// The key index within the node.
    pub open(crate) spec fn slot(&self) -> usize {
        self.index
    }

    /// The entries of the tree the position belongs to.
    pub open(crate) spec fn tree_map(&self) -> Map<K, V> {
        bmap(self.node_ref().root_node())
    }

    /// The key at the position.
    pub open(crate) spec fn key_at(&self) -> K {
        self.node_ref().node().keys@[self.slot() as int]
    }

    /// The value at the position.
    pub open(crate) spec fn value_at(&self) -> V {
        self.node_ref().node().values@[self.slot() as int]
    }
}

impl<'a, K: TreeKey, V> BPos<'a, K, V> {
    /// The position is at an entry of a node of a valid tree.
    pub open(crate) spec fn wf(&self) -> bool {
        self.node_ref().wf() && self.slot() < self.node_ref().node().keys@.len()
    }

    /// The entry at the position is an entry of the tree.
    pub proof fn lemma_entry(&self)
        requires
            self.wf(),
        ensures
            self.tree_map().dom().contains(self.key_at()),
            self.tree_map()[self.key_at()] == self.value_at(),
    {
        self.at.lemma_node();
        assert(self.at.node().keys@[self.index as int] == self.key_at());
    }

    /// The key at the position.
    pub fn key(&self) -> (r: &'a K)
        requires
            self.wf(),
        ensures
            *r == self.key_at(),
    {
        let node: &'a BNode<K, V> = self.at.node;
        &node.keys[self.index]
    }

    /// The value at the position.
    pub fn value(&self) -> (r: &'a V)
        requires
            self.wf(),
        ensures
            *r == self.value_at(),
    {
        proof {
            self.at.lemma_node();
        }
        let node: &'a BNode<K, V> = self.at.node;
        &node.values[self.index]
    }

    /// The entry with the next larger key, if any.
    pub fn next(&self) -> (r: Option<Self>)
        requires
            self.wf(),
        ensures
            r is Some <==> has_key_above(self.tree_map(), self.key_at()),
            r matches Some(c) ==> c.wf() && c.node_ref().root_node() == self.node_ref().root_node()
                && c.node_ref().deg() == self.node_ref().deg() && is_next_key(self.tree_map(), self.key_at(), c.key_at()) && c.value_at()
                == self.tree_map()[c.key_at()],
    {
        let root: &'a BNode<K, V> = self.at.root;
        let ghost s = bseq(*root);
        let key = self.key();
        proof {
            lemma_none_above(s, *key);
        }
        match next_above(root, key, Ghost(self.at.t@)) {
            None => None,
            Some(x) => {
                let c = BPos { at: BRef { root, node: x.0, t: self.at.t }, index: x.1 };
                proof {
                    let p = choose|p: int|
                        0 <= p < s.len() && #[trigger] s[p] == (
                            x.0.keys@[x.1 as int],
                            x.0.values@[x.1 as int],
                        ) && s[p].0.rank() > key.rank() && (p > 0 ==> s[p - 1].0.rank()
                            <= key.rank());
                    lemma_next_at(s, *key, p);
                }
                Some(c)
            },
        }
    }

    /// The entry with the next smaller key, if any.
    pub fn prev(&self) -> (r: Option<Self>)
        requires
            self.wf(),
        ensures
            r is Some <==> has_key_below(self.tree_map(), self.key_at()),
            r matches Some(c) ==> c.wf() && c.node_ref().root_node() == self.node_ref().root_node()
                && c.node_ref().deg() == self.node_ref().deg() && is_prev_key(self.tree_map(), self.key_at(), c.key_at()) && c.value_at()
                == self.tree_map()[c.key_at()],
    {
        let root: &'a BNode<K, V> = self.at.root;
        let ghost s = bseq(*root);
        let key = self.key();
        proof {
            lemma_none_below(s, *key);
        }
        match prev_below(root, key, Ghost(self.at.t@)) {
            None => None,
            Some(x) => {
                let c = BPos { at: BRef { root, node: x.0, t: self.at.t }, index: x.1 };
                proof {
                    let p = choose|p: int|
                        0 <= p < s.len() && #[trigger] s[p] == (
                            x.0.keys@[x.1 as int],
                            x.0.values@[x.1 as int],
                        ) && s[p].0.rank() < key.rank() && (p + 1 < s.len() ==> s[p + 1].0.rank()
                            >= key.rank());
                    lemma_prev_at(s, *key, p);
                }
                Some(c)
            },
        }
    }
}

impl<K: TreeKey, V> BTreeBase<K, V> {
    /// The tree is valid: a usable degree, a valid root or none, and the entry count.
    pub open(crate) spec fn wf(&self) -> bool {
        &&& degree_ok(self.t)
        &&& self.len == root_seq(self.root).len()
        &&& self.root matches Some(r) ==> root_ok(r, self.t as nat)
    }

    /// What every valid tree satisfies: its entries are sorted, and its map has one key per
    /// entry.
    pub proof fn lemma_inv(&self)
        requires
            self.wf(),
        ensures
            sorted_entries(root_seq(self.root_node())),
            self@.dom().finite(),
            self@.len() == root_seq(self.root_node()).len(),
            self.root_node() is None <==> self@.len() == 0,
    {
        match self.root {
            None => {},
            Some(r) => {
                lemma_depth_below_len(r, self.t as nat);
            },
        }
        lemma_entries_len(root_seq(self.root));
    }

    /// An empty tree of minimum degree `t`.
    pub fn new(t: usize) -> (r: Self)
        requires
            degree_ok(t),
        ensures
            r.wf(),
            r.min_degree() == t,
            r@ == Map::<K, V>::empty(),
    {
        let r = BTreeBase { root: None, len: 0, t };
        proof {
            assert(r@ =~= Map::<K, V>::empty());
        }
        r
    }

    /// The minimum degree.
    pub fn degree(&self) -> (r: usize)
        ensures
            r == self.min_degree(),
    {
        self.t
    }

    /// Number of entries.
    pub fn len(&self) -> (r: usize)
        requires
            self.wf(),
        ensures
            r == self@.len(),
    {
        proof {
            self.lemma_inv();
        }
        self.len
    }

    /// Whether the tree holds no entry.
    pub fn is_empty(&self) -> (r: bool)
        requires
            self.wf(),
        ensures
            r == (self@.len() == 0),
    {
        proof {
            self.lemma_inv();
        }
        self.len == 0
    }

    /// A reference to the root node, if any.
    pub fn root_ref(&self) -> (r: Option<BRef<'_, K, V>>)
        requires
            self.wf(),
        ensures
            r is None <==> self.root_node() is None,
            r matches Some(p) ==> p.wf() && self.root_node() == Some(p.root_node()) && p.node()
                == p.root_node() && p.deg() == self.min_degree() as nat,
    {
        match &self.root {
            None => None,
            Some(r) => {
                proof {
                    lemma_bsub_refl(*r);
                }
                Some(BRef { root: r, node: r, t: Ghost(self.t as nat) })
            },
        }
    }

    /// The position of `key`, if present.
    pub fn find(&self, key: &K) -> (r: Option<BPos<'_, K, V>>)
        requires
            self.wf(),
        ensures
            r is Some <==> self@.dom().contains(*key),
            r matches Some(c) ==> c.wf() && self.root_node() == Some(c.node_ref().root_node())
                && c.tree_map() == self@ && c.node_ref().deg() == self.min_degree() as nat && c.key_at() == *key && c.value_at()
                == self@[*key],
    {
        match &self.root {
            None => None,
            Some(r) => match search(r, key, Ghost(self.t as nat)) {
                None => None,
                Some(x) => Some(
                    BPos { at: BRef { root: r, node: x.0, t: Ghost(self.t as nat) }, index: x.1 },
                ),
            },
        }
    }

    /// The position of the smallest key, if the tree is not empty.
    pub fn first(&self) -> (r: Option<BPos<'_, K, V>>)
        requires
            self.wf(),
        ensures
            r is Some <==> self@.len() > 0,
            r matches Some(c) ==> c.wf() && self.root_node() == Some(c.node_ref().root_node())
                && c.tree_map() == self@ && c.node_ref().deg() == self.min_degree() as nat && is_min_key(self@, c.key_at())
                && c.value_at() == self@[c.key_at()],
    {
        proof {
            self.lemma_inv();
        }
        match &self.root {
            None => None,
            Some(r) => {
                let x = first_entry(r, Ghost(self.t as nat));
                proof {
                    lemma_sorted_ends(bseq(*r));
                }
                Some(BPos { at: BRef { root: r, node: x.0, t: Ghost(self.t as nat) }, index: x.1 })
            },
        }
    }

    /// The position of the largest key, if the tree is not empty.
    pub fn last(&self) -> (r: Option<BPos<'_, K, V>>)
        requires
            self.wf(),
        ensures
            r is Some <==> self@.len() > 0,
            r matches Some(c) ==> c.wf() && self.root_node() == Some(c.node_ref().root_node())
                && c.tree_map() == self@ && c.node_ref().deg() == self.min_degree() as nat && is_max_key(self@, c.key_at())
                && c.value_at() == self@[c.key_at()],
    {
        proof {
            self.lemma_inv();
        }
        match &self.root {
            None => None,
            Some(r) => {
                let x = last_entry(r, Ghost(self.t as nat));
                proof {
                    lemma_sorted_ends(bseq(*r));
                }
                Some(BPos { at: BRef { root: r, node: x.0, t: Ghost(self.t as nat) }, index: x.1 })
            },
        }
    }

    /// Adds `key -> value`, or replaces the value of an equal key; returns the replaced value.
    /// A full root is split first, which makes the tree one level taller.
    pub fn insert(&mut self, key: K, value: V) -> (r: Option<V>)
        requires
            old(self).wf(),
            old(self)@.len() < usize::MAX,
        ensures
            final(self).wf(),
            final(self).min_degree() == old(self).min_degree(),
            final(self)@ == old(self)@.insert(key, value),
            r == (if old(self)@.dom().contains(key) {
                Some(old(self)@[key])
            } else {
                None::<V>
            }),
    {
        proof {
            self.lemma_inv();
        }
        let t = self.t;
        let ghost s = root_seq(self.root);
        match self.root.take() {
            None => {
                let mut keys = Vec::new();
                keys.push(key);
                let mut values = Vec::new();
                values.push(value);
                let leaf = BNode { keys, values, children: Vec::new() };
                proof {
                    assert(bseq(leaf) =~= seq![(key, value)]);
                    assert(s.insert(0, (key, value)) =~= seq![(key, value)]);
                    lemma_sorted_insert(s, 0, (key, value));
                }
                self.root = Some(leaf);
                self.len = 1;
                None
            },
            Some(root) => {
                let ghost old_root = root;
                let top = if root.keys.len() == 2 * t - 1 {
                    let mut children = Vec::new();
                    children.push(root);
                    let lifted = BNode { keys: Vec::new(), values: Vec::new(), children };
                    proof {
                        lemma_single_child(old_root);
                        assert(bseq(lifted) == bseq(old_root));
                        assert(lifted.children@[0] == old_root);
                    }
                    split_child(lifted, 0, t)
                } else {
                    root
                };
                proof {
                    assert(bseq(top) == s);
                }
                let (new_root, r) = insert_nonfull(top, key, value, t);
                let ghost s2 = bseq(new_root);
                self.root = Some(new_root);
                proof {
                    if r is Some {
                        let old = r->0;
                        let p = choose|p: int|
                            0 <= p < s.len() && #[trigger] s[p].0 == key && old == s[p].1 && s2
                                == s.update(p, (key, value));
                        lemma_sorted_update(s, p, value);
                    } else {
                        let p = choose|p: int|
                            fits_at(s, p, (key, value)) && #[trigger] s.insert(p, (key, value)) == s2;
                        lemma_sorted_insert(s, p, (key, value));
                    }
                }
                if r.is_none() {
                    self.len = self.len + 1;
                }
                r
            },
        }
    }

    /// Removes `key`; returns its value if it was present. A root left without keys gives way
    /// to its only child, which makes the tree one level shorter.
    pub fn remove(&mut self, key: &K) -> (r: Option<V>)
        requires
            old(self).wf(),
        ensures
            final(self).wf(),
            final(self).min_degree() == old(self).min_degree(),
            final(self)@ == old(self)@.remove(*key),
            r == (if old(self)@.dom().contains(*key) {
                Some(old(self)@[*key])
            } else {
                None::<V>
            }),
    {
        proof {
            self.lemma_inv();
        }
        let t = self.t;
        let ghost s = root_seq(self.root);
        match self.root.take() {
            None => {
                proof {
                    assert(s =~= Seq::<(K, V)>::empty());
                    assert(self@ =~= old(self)@.remove(*key));
                }
                None
            },
            Some(root) => {
                let (new_root, r) = remove_rec(root, key, t);
                let ghost s2 = bseq(new_root);
                proof {
                    if r is Some {
                        let v = r->0;
                        let p = choose|p: int|
                            0 <= p < s.len() && #[trigger] s[p].0 == *key && v == s[p].1 && s2
                                == s.remove(p);
                        lemma_sorted_remove(s, p);
                    } else {
                        assert(entries_map(s2) =~= entries_map(s).remove(*key));
                    }
                }
                if new_root.keys.len() == 0 {
                    let BNode { keys: _, values: _, mut children } = new_root;
                    if children.len() == 0 {
                        proof {
                            assert(s2 =~= Seq::<(K, V)>::empty());
                        }
                        self.root = None;
                    } else {
                        let only = children.remove(0);
                        proof {
                            let c0 = new_root.children@[0];
                            assert(only == c0);
                            lemma_single_child(c0);
                            assert(new_root.keys@ =~= Seq::<K>::empty());
                            assert(new_root.values@ =~= Seq::<V>::empty());
                            assert(new_root.children@ =~= seq![c0]);
                            assert(s2 == bseq(c0));
                            assert(crate::trees::b_tree::engine::bshape(c0, t as nat));
                            crate::trees::b_tree::engine::lemma_child_bounds(new_root, 0);
                        }
                        self.root = Some(only);
                    }
                } else {
                    self.root = Some(new_root);
                }
                if r.is_some() {
                    self.len = self.len - 1;
                }
                r
            },
        }
    }

    /// Number of nodes on a path from the root down to a leaf; 0 for the empty tree.
    pub fn height(&self) -> (r: usize)
        requires
            self.wf(),
        ensures
            r == match self.root_node() {
                None => 0,
                Some(n) => bdepth(n) + 1,
            },
    {
        match &self.root {
            None => 0,
            Some(r) => {
                proof {
                    lemma_depth_below_len(*r, self.t as nat);
                }
                subtree_height(r)
            },
        }
    }

    /// Number of nodes.
    pub fn node_count(&self) -> (r: usize)
        requires
            self.wf(),
        ensures
            r == match self.root_node() {
                None => 0,
                Some(n) => bcount(n),
            },
    {
        match &self.root {
            None => 0,
            Some(r) => count_nodes(r, Ghost(self.t as nat)),
        }
    }
}

} // verus!
