//! B-tree: the `arena` variant, with the same owned, checked layout as the `safe` variant.
use vstd::prelude::*;

use crate::key::TreeKey;
use crate::trees::b_tree::base::{root_ok, BPos, BRef, BTreeBase};
use crate::trees::b_tree::engine::{bdepth, bshape, BNode};
use crate::trees::b_tree::search::{bcount, bmap, lemma_bsub_upper, lemma_bsub_within, lemma_keys_sorted};
use crate::trees::node::{
    entries_to_map, lemma_entries_to_map_len,
    has_key_above, has_key_below, is_max_key, is_min_key, is_next_key, is_prev_key,
};

verus! {

/// A read-only view of one node of a [`BTree`].
pub struct BTreeNodeView<'a, K, V> {
    at: BRef<'a, K, V>,
}

/// A position at one entry of a [`BTree`], able to step to its neighbours in key order.
pub struct BTreeCursor<'a, K, V> {
    pos: BPos<'a, K, V>,
}

/// Walks the entries of a [`BTree`] in increasing key order.
pub struct BTreeIter<'a, K, V> {
    next: Option<BTreeCursor<'a, K, V>>,
}

impl<'a, K, V> Clone for BTreeNodeView<'a, K, V> {
    fn clone(&self) -> (r: Self)
        ensures
            r == *self,
    {
        BTreeNodeView { at: self.at.clone() }
    }
}

impl<'a, K, V> Clone for BTreeCursor<'a, K, V> {
    fn clone(&self) -> (r: Self)
        ensures
            r == *self,
    {
        BTreeCursor { pos: self.pos.clone() }
    }
}

impl<'a, K: TreeKey, V> BTreeNodeView<'a, K, V> {
    /// The view shows a node of a valid tree.
    pub closed spec fn wf(&self) -> bool {
        self.at.wf()
    }

    /// The node this view shows.
    pub closed spec fn node(&self) -> BNode<K, V> {
        self.at.node()
    }

    /// The root node of the tree the view belongs to.
    pub closed spec fn tree_root(&self) -> BNode<K, V> {
        self.at.root_node()
    }

    /// The node's entries are entries of its tree: the node holds as many values as keys,
    /// and each key of the node maps, in the tree's entries, to the value beside it.
    pub proof fn lemma_entries(&self)
        requires
            self.wf(),
        ensures
            self.node().keys@.len() == self.node().values@.len(),
            forall|i: int|
                0 <= i < self.node().keys@.len() ==> bmap(self.tree_root()).dom().contains(
                    #[trigger] self.node().keys@[i],
                ) && bmap(self.tree_root())[self.node().keys@[i]] == self.node().values@[i],
    {
        self.at.lemma_node();
    }

    /// Clones of the node's keys, in order.
    pub fn keys(&self) -> (r: Vec<K>) where K: Clone
        ensures
            r@.len() == self.node().keys@.len(),
            forall|i: int| 0 <= i < r@.len() ==> cloned(self.node().keys@[i], #[trigger] r@[i]),
    {
        self.at.keys()
    }

    /// Clones of the node's entries, in key order.
    pub fn entries(&self) -> (r: Vec<(K, V)>) where K: Clone, V: Clone
        requires
            self.wf(),
        ensures
            r@.len() == self.node().keys@.len(),
            forall|i: int|
                0 <= i < r@.len() ==> cloned(self.node().keys@[i], (#[trigger] r@[i]).0) && cloned(
                    self.node().values@[i],
                    r@[i].1,
                ),
    {
        self.at.entries()
    }

    /// Number of keys in the node.
    pub fn key_count(&self) -> (r: usize)
        ensures
            r == self.node().keys@.len(),
    {
        self.at.key_count()
    }

    /// Whether the node has no children.
    pub fn is_leaf(&self) -> (r: bool)
        ensures
            r == (self.node().children@.len() == 0),
    {
        self.at.is_leaf()
    }

    /// Views of the node's children, in order.
    pub fn children(&self) -> (r: Vec<Self>)
        requires
            self.wf(),
        ensures
            r@.len() == self.node().children@.len(),
            forall|i: int|
                0 <= i < r@.len() ==> (#[trigger] r@[i]).wf() && r@[i].node()
                    == self.node().children@[i] && r@[i].tree_root() == self.tree_root(),
    {
        let refs = self.at.children();
        let mut out: Vec<Self> = Vec::new();
        let mut i: usize = 0;
        while i < refs.len()
            invariant
                i <= refs@.len(),
                refs@.len() == self.node().children@.len(),
                forall|j: int|
                    0 <= j < refs@.len() ==> (#[trigger] refs@[j]).wf() && refs@[j].node()
                        == self.node().children@[j] && refs@[j].root_node() == self.at.root_node(),
                out@.len() == i,
                forall|j: int|
                    0 <= j < i ==> (#[trigger] out@[j]).wf() && out@[j].node()
                        == self.node().children@[j] && out@[j].tree_root() == self.tree_root(),
            decreases refs@.len() - i,
        {
            out.push(BTreeNodeView { at: refs[i].clone() });
            i = i + 1;
        }
        out
    }

    /// The parent node; `None` exactly at the root.
    pub fn parent(&self) -> (r: Option<Self>)
        requires
            self.wf(),
        ensures
            r is None <==> self.node() == self.tree_root(),
            r matches Some(p) ==> p.wf() && p.tree_root() == self.tree_root() && exists|i: int|
                0 <= i < p.node().children@.len() && #[trigger] p.node().children@[i]
                    == self.node(),
    {
        match self.at.parent() {
            None => None,
            Some(p) => {
                let r = BTreeNodeView { at: p };
                proof {
                    let i = choose|i: int|
                        0 <= i < p.node().children@.len() && #[trigger] p.node().children@[i]
                            == self.at.node();
                    assert(r.node().children@[i] == self.node());
                }
                Some(r)
            },
        }
    }
}

impl<'a, K: TreeKey, V> BTreeCursor<'a, K, V> {
    /// The cursor is at an entry of a valid tree.
    pub closed spec fn wf(&self) -> bool {
        self.pos.wf()
    }

    /// The entries of the tree the cursor belongs to.
    pub closed spec fn tree_map(&self) -> Map<K, V> {
        self.pos.tree_map()
    }

    /// The root node of the tree the cursor belongs to.
    pub closed spec fn tree_root(&self) -> BNode<K, V> {
        self.pos.node_ref().root_node()
    }

    /// The node the cursor is in.
    pub closed spec fn node_at(&self) -> BNode<K, V> {
        self.pos.node_ref().node()
    }

    /// The position of the cursor's key within its node.
    pub closed spec fn index_at(&self) -> usize {
        self.pos.slot()
    }

    /// The key the cursor is at.
    pub closed spec fn key_at(&self) -> K {
        self.pos.key_at()
    }

    /// The value the cursor is at.
    pub closed spec fn value_at(&self) -> V {
        self.pos.value_at()
    }

    /// What holds of every cursor: its entry is an entry of its tree, found in its node at its
    /// index.
    pub proof fn lemma_cursor(&self)
        requires
            self.wf(),
        ensures
            self.tree_map().dom().contains(self.key_at()),
            self.tree_map()[self.key_at()] == self.value_at(),
            self.index_at() < self.node_at().keys@.len(),
            self.key_at() == self.node_at().keys@[self.index_at() as int],
            self.value_at() == self.node_at().values@[self.index_at() as int],
            self.tree_map() == bmap(self.tree_root()),
    {
        self.pos.lemma_entry();
    }

    /// The key at the cursor.
    pub fn key(&self) -> (r: &'a K)
        requires
            self.wf(),
        ensures
            *r == self.key_at(),
    {
        self.pos.key()
    }

    /// The value at the cursor.
    pub fn value(&self) -> (r: &'a V)
        requires
            self.wf(),
        ensures
            *r == self.value_at(),
    {
        self.pos.value()
    }

    /// The position of the cursor's key within its node.
    pub fn index(&self) -> (r: usize)
        ensures
            r == self.index_at(),
    {
        self.pos.index
    }

    /// Whether the cursor's node is a leaf.
    pub fn is_leaf(&self) -> (r: bool)
        ensures
            r == (self.node_at().children@.len() == 0),
    {
        self.pos.at.is_leaf()
    }

    /// The cursor's node, as a node view.
    pub fn node_view(&self) -> (r: BTreeNodeView<'a, K, V>)
        requires
            self.wf(),
        ensures
            r.wf(),
            r.node() == self.node_at(),
            r.tree_root() == self.tree_root(),
    {
        BTreeNodeView { at: self.pos.at.clone() }
    }

    /// The cursor at the next smaller key, if any.
    pub fn predecessor(&self) -> (r: Option<Self>)
        requires
            self.wf(),
        ensures
            r is Some <==> has_key_below(self.tree_map(), self.key_at()),
            r matches Some(c) ==> c.wf() && c.tree_map() == self.tree_map() && c.tree_root()
                == self.tree_root() && is_prev_key(self.tree_map(), self.key_at(), c.key_at())
                && c.value_at() == self.tree_map()[c.key_at()],
    {
        match self.pos.prev() {
            None => None,
            Some(p) => Some(BTreeCursor { pos: p }),
        }
    }

    /// The cursor at the next larger key, if any.
    pub fn successor(&self) -> (r: Option<Self>)
        requires
            self.wf(),
        ensures
            r is Some <==> has_key_above(self.tree_map(), self.key_at()),
            r matches Some(c) ==> c.wf() && c.tree_map() == self.tree_map() && c.tree_root()
                == self.tree_root() && is_next_key(self.tree_map(), self.key_at(), c.key_at())
                && c.value_at() == self.tree_map()[c.key_at()],
    {
        match self.pos.next() {
            None => None,
            Some(p) => Some(BTreeCursor { pos: p }),
        }
    }
}

impl<'a, K: TreeKey + Clone, V: Clone> BTreeIter<'a, K, V> {
    /// The cursor of the entry the next call returns.
    pub closed spec fn upcoming(&self) -> Option<BTreeCursor<'a, K, V>> {
        self.next
    }

    /// Returns clones of the current entry and moves to the next larger key.
    pub fn next(&mut self) -> (r: Option<(K, V)>)
        requires
            old(self).upcoming() matches Some(c) ==> c.wf(),
        ensures
            match old(self).upcoming() {
                None => r is None && final(self).upcoming() is None,
                Some(c) => {
                    &&& r matches Some(e) && cloned(c.key_at(), e.0) && cloned(c.value_at(), e.1)
                    &&& final(self).upcoming() is Some <==> has_key_above(c.tree_map(), c.key_at())
                    &&& final(self).upcoming() matches Some(d) ==> d.wf() && d.tree_map()
                        == c.tree_map() && is_next_key(c.tree_map(), c.key_at(), d.key_at())
                        && d.value_at() == c.tree_map()[d.key_at()]
                },
            },
    {
        match self.next.take() {
            None => None,
            Some(c) => {
                let item = (c.key().clone(), c.value().clone());
                self.next = c.successor();
                Some(item)
            },
        }
    }
}

/// A B-tree map of minimum degree `T`: the `arena` variant.
pub struct BTree<K, V, const T: usize> {
    tree: BTreeBase<K, V>,
}

impl<K, V, const T: usize> View for BTree<K, V, T> {
    type V = Map<K, V>;

    closed spec fn view(&self) -> Map<K, V> {
        self.tree@
    }
}

impl<K: TreeKey, V, const T: usize> BTree<K, V, T> {
    /// The tree is a valid B-tree of minimum degree `T`.
    pub closed spec fn wf(&self) -> bool {
        self.tree.wf() && self.tree.min_degree() == T
    }

    /// The root node, if the tree is not empty.
    pub closed spec fn root_node(&self) -> Option<BNode<K, V>> {
        self.tree.root_node()
    }

    /// What holds of every valid tree: an empty tree has no root, and otherwise the root holds
    /// between 1 and `2T - 1` keys, every other node between `T - 1` and `2T - 1`, an internal
    /// node one child more than keys, all leaves lie at the same depth, the keys are in order,
    /// and the view is the map of the entries.
    pub proof fn lemma_shape(&self)
        requires
            self.wf(),
        ensures
            self@.dom().finite(),
            match self.root_node() {
                None => self@.len() == 0,
                Some(r) => root_ok(r, T as nat) && self@ == bmap(r) && self@.len() > 0,
            },
    {
        self.tree.lemma_inv();
    }

    /// Every node of a valid B-tree keeps the rules: as many values as keys, no children or one
    /// more than keys, all its children at the same depth and none of them the root, keys in
    /// increasing order, at most `2T - 1` keys, and at least `T - 1` keys unless it is the root,
    /// which holds at least one.
    pub proof fn lemma_node_rules(&self, n: BTreeNodeView<'_, K, V>)
        requires
            self.wf(),
            n.wf(),
            self.root_node() == Some(n.tree_root()),
        ensures
            n.node().keys@.len() == n.node().values@.len(),
            n.node().children@.len() == 0 || n.node().children@.len() == n.node().keys@.len() + 1,
            forall|i: int|
                0 <= i < n.node().children@.len() ==> bdepth(#[trigger] n.node().children@[i])
                    == bdepth(n.node().children@[0]) && n.node().children@[i] != n.tree_root(),
            forall|a: int, b: int|
                0 <= a < b < n.node().keys@.len() ==> (#[trigger] n.node().keys@[a]).rank() < (
                #[trigger] n.node().keys@[b]).rank(),
            n.node().keys@.len() <= 2 * T - 1,
            n.node() == n.tree_root() ==> n.node().keys@.len() >= 1,
            n.node() != n.tree_root() ==> n.node().keys@.len() >= T - 1,
    {
        self.lemma_shape();
        let root = n.tree_root();
        lemma_bsub_within(n.node(), root, T as nat);
        if n.node() != root {
            lemma_bsub_upper(n.node(), root, T as nat);
        }
        lemma_keys_sorted(n.node());
        assert forall|i: int| 0 <= i < n.node().children@.len() implies bdepth(
            #[trigger] n.node().children@[i],
        ) == bdepth(n.node().children@[0]) && n.node().children@[i] != n.tree_root() by {
            assert(bshape(n.node().children@[i], T as nat));
        }
    }

    /// An empty tree.
    pub fn new() -> (r: Self)
        requires
            T >= 2,
            2 * T <= usize::MAX,
        ensures
            r.wf(),
            r@ == Map::<K, V>::empty(),
    {
        BTree { tree: BTreeBase::new(T) }
    }

    /// The root node, if the tree is not empty.
    pub fn root_view(&self) -> (r: Option<BTreeNodeView<'_, K, V>>)
        requires
            self.wf(),
        ensures
            r is Some <==> self@.len() > 0,
            r matches Some(v) ==> v.wf() && self.root_node() == Some(v.node()) && v.node()
                == v.tree_root(),
    {
        proof {
            self.tree.lemma_inv();
        }
        match self.tree.root_ref() {
            None => None,
            Some(p) => Some(BTreeNodeView { at: p }),
        }
    }

    /// The minimum degree `T`.
    pub fn degree(&self) -> (r: usize)
        ensures
            r == T,
    {
        T
    }

    /// Number of entries.
    pub fn len(&self) -> (r: usize)
        requires
            self.wf(),
        ensures
            r == self@.len(),
    {
        self.tree.len()
    }

    /// Whether the tree holds no entry.
    pub fn is_empty(&self) -> (r: bool)
        requires
            self.wf(),
        ensures
            r == (self@.len() == 0),
    {
        self.tree.is_empty()
    }

    /// Removes every entry; the degree bounds are those of [`Self::new`].
    pub fn clear(&mut self)
        requires
            T >= 2,
            2 * T <= usize::MAX,
        ensures
            final(self).wf(),
            final(self)@ == Map::<K, V>::empty(),
    {
        self.tree = BTreeBase::new(T);
    }

    /// The cursor at `key`, if present.
    pub fn cursor(&self, key: &K) -> (r: Option<BTreeCursor<'_, K, V>>)
        requires
            self.wf(),
        ensures
            r is Some <==> self@.dom().contains(*key),
            r matches Some(c) ==> c.wf() && c.tree_map() == self@ && self.root_node() == Some(
                c.tree_root(),
            ) && c.key_at() == *key && c.value_at() == self@[*key],
    {
        match self.tree.find(key) {
            None => None,
            Some(p) => Some(BTreeCursor { pos: p }),
        }
    }

    /// Whether `key` is present.
    pub fn contains_key(&self, key: &K) -> (r: bool)
        requires
            self.wf(),
        ensures
            r == self@.dom().contains(*key),
    {
        self.tree.find(key).is_some()
    }

    /// The cursor at the smallest key, if the tree is not empty.
    pub fn min_cursor(&self) -> (r: Option<BTreeCursor<'_, K, V>>)
        requires
            self.wf(),
        ensures
            r is Some <==> self@.len() > 0,
            r matches Some(c) ==> c.wf() && c.tree_map() == self@ && self.root_node() == Some(
                c.tree_root(),
            ) && is_min_key(self@, c.key_at()) && c.value_at() == self@[c.key_at()],
    {
        match self.tree.first() {
            None => None,
            Some(p) => Some(BTreeCursor { pos: p }),
        }
    }

    /// The cursor at the largest key, if the tree is not empty.
    pub fn max_cursor(&self) -> (r: Option<BTreeCursor<'_, K, V>>)
        requires
            self.wf(),
        ensures
            r is Some <==> self@.len() > 0,
            r matches Some(c) ==> c.wf() && c.tree_map() == self@ && self.root_node() == Some(
                c.tree_root(),
            ) && is_max_key(self@, c.key_at()) && c.value_at() == self@[c.key_at()],
    {
        match self.tree.last() {
            None => None,
            Some(p) => Some(BTreeCursor { pos: p }),
        }
    }

    /// Adds `key -> value`, or replaces the value of an equal key; returns the replaced value.
    /// Full nodes met on the way down are split, so the tree stays a B-tree.
    pub fn insert_entry(&mut self, key: K, value: V) -> (r: Option<V>)
        requires
            old(self).wf(),
            old(self)@.len() < usize::MAX,
        ensures
            final(self).wf(),
            final(self)@ == old(self)@.insert(key, value),
            r == (if old(self)@.dom().contains(key) {
                Some(old(self)@[key])
            } else {
                None::<V>
            }),
    {
        self.tree.insert(key, value)
    }

    /// Removes `key`; returns its value if it was present. Nodes left with too few keys borrow
    /// from or merge with a sibling, so the tree stays a B-tree.
    pub fn remove_key(&mut self, key: &K) -> (r: Option<V>)
        requires
            old(self).wf(),
        ensures
            final(self).wf(),
            final(self)@ == old(self)@.remove(*key),
            r == (if old(self)@.dom().contains(*key) {
                Some(old(self)@[*key])
            } else {
                None::<V>
            }),
    {
        self.tree.remove(key)
    }

    /// Walks the entries in increasing key order.
    pub fn iter(&self) -> (r: BTreeIter<'_, K, V>) where K: Clone, V: Clone
        requires
            self.wf(),
        ensures
            r.upcoming() is Some <==> self@.len() > 0,
            r.upcoming() matches Some(c) ==> c.wf() && c.tree_map() == self@ && is_min_key(
                self@,
                c.key_at(),
            ) && c.value_at() == self@[c.key_at()],
    {
        BTreeIter { next: self.min_cursor() }
    }

    /// A tree holding `entries`, inserted in order: a later entry replaces an earlier one
    /// with an equal key.
    pub fn from_iter(entries: Vec<(K, V)>) -> (r: Self)
        requires
            T >= 2,
            2 * T <= usize::MAX,
        ensures
            r.wf(),
            r@ == entries_to_map(entries@),
    {
        let mut tree = Self::new();
        let ghost all = entries@;
        let n = entries.len();
        proof {
            assert(all.len() == n);
        }
        for e in it: entries.into_iter()
            invariant
                it.seq() == all,
                all.len() <= usize::MAX,
                tree.wf(),
                tree@ == entries_to_map(all.take(it.index())),
        {
            proof {
                lemma_entries_to_map_len(all.take(it.index()));
                assert(all.take(it.index() + 1).drop_last() =~= all.take(it.index()));
            }
            let (k, v) = e;
            tree.insert_entry(k, v);
        }
        proof {
            assert(all.take(all.len() as int) =~= all);
        }
        tree
    }

    /// Same as [`Self::insert_entry`].
    pub fn insert(&mut self, key: K, value: V) -> (r: Option<V>)
        requires
            old(self).wf(),
            old(self)@.len() < usize::MAX,
        ensures
            final(self).wf(),
            final(self)@ == old(self)@.insert(key, value),
            r == (if old(self)@.dom().contains(key) {
                Some(old(self)@[key])
            } else {
                None::<V>
            }),
    {
        self.insert_entry(key, value)
    }

    /// Same as [`Self::remove_key`].
    pub fn remove(&mut self, key: &K) -> (r: Option<V>)
        requires
            old(self).wf(),
        ensures
            final(self).wf(),
            final(self)@ == old(self)@.remove(*key),
            r == (if old(self)@.dom().contains(*key) {
                Some(old(self)@[*key])
            } else {
                None::<V>
            }),
    {
        self.remove_key(key)
    }

    /// The node view of a cursor of this tree.
    pub fn view_from_cursor<'a>(&'a self, cursor: &BTreeCursor<'a, K, V>) -> (r: BTreeNodeView<
        'a,
        K,
        V,
    >)
        requires
            cursor.wf(),
        ensures
            r.wf(),
            r.node() == cursor.node_at(),
            r.tree_root() == cursor.tree_root(),
    {
        cursor.node_view()
    }

    /// Same as [`Self::min_cursor`].
    pub fn first_cursor(&self) -> (r: Option<BTreeCursor<'_, K, V>>)
        requires
            self.wf(),
        ensures
            r is Some <==> self@.len() > 0,
            r matches Some(c) ==> c.wf() && c.tree_map() == self@ && is_min_key(self@, c.key_at()),
    {
        self.min_cursor()
    }

    /// Same as [`Self::max_cursor`].
    pub fn last_cursor(&self) -> (r: Option<BTreeCursor<'_, K, V>>)
        requires
            self.wf(),
        ensures
            r is Some <==> self@.len() > 0,
            r matches Some(c) ==> c.wf() && c.tree_map() == self@ && is_max_key(self@, c.key_at()),
    {
        self.max_cursor()
    }

    /// Number of nodes on a path from the root down to a leaf (all such paths are equally
    /// long); 0 for the empty tree.
    pub fn height(&self) -> (r: usize)
        requires
            self.wf(),
        ensures
            r == match self.root_node() {
                None => 0,
                Some(n) => bdepth(n) + 1,
            },
    {
        self.tree.height()
    }

    /// Number of nodes.
    pub fn node_count(&self) -> (r: usize)
        requires
            self.wf(),
        ensures
            r == match self.root_node() {
                None => 0,
                Some(n) => bcount(n),
            },
    {
        self.tree.node_count()
    }

    /// Number of nodes on a path from the cursor's node down to a leaf.
    pub fn node_height(&self, cursor: &BTreeCursor<'_, K, V>) -> (r: usize)
        requires
            cursor.wf(),
        ensures
            r == bdepth(cursor.node_at()) + 1,
    {
        cursor.pos.at.height()
    }
}

} // verus!
