//! AVL tree: the `safe` variant.
use vstd::prelude::*;

use crate::key::TreeKey;
use crate::trees::bin_tree::BinTree;
use crate::trees::node::{
    entries_to_map, lemma_entries_to_map_len,
    has_key_above, has_key_below, height_of, is_max_key, is_min_key, is_next_key, is_prev_key,
    is_child, lemma_child_smaller, lemma_parent_unique, lemma_subtree_facts, lemma_subtree_unique, map_of, ordered, Node,
};
use crate::trees::node_ref::NodeRef;
use crate::trees::avl_tree::engine::{avl_del, avl_ok, avl_put, lemma_avl_ok_subtree};

verus! {

/// A read-only view of one node of a [`AvlTree`].
pub struct AvlNodeView<'a, K, V> {
    at: NodeRef<'a, K, V, usize>,
}

/// A position at one entry of a [`AvlTree`], able to step to its neighbours in key
/// order.
pub struct AvlCursor<'a, K, V> {
    at: NodeRef<'a, K, V, usize>,
}

/// Walks the entries of a [`AvlTree`] in increasing key order.
pub struct AvlIter<'a, K, V> {
    next: Option<AvlCursor<'a, K, V>>,
}

impl<'a, K, V> Clone for AvlNodeView<'a, K, V> {
    fn clone(&self) -> (r: Self)
        ensures
            r == *self,
    {
        AvlNodeView { at: self.at.clone() }
    }
}

impl<'a, K, V> Clone for AvlCursor<'a, K, V> {
    fn clone(&self) -> (r: Self)
        ensures
            r == *self,
    {
        AvlCursor { at: self.at.clone() }
    }
}

impl<'a, K: TreeKey, V> AvlNodeView<'a, K, V> {
    /// The view points into an ordered tree.
    pub closed spec fn wf(&self) -> bool {
        self.at.wf()
    }

    /// The node this view shows.
    pub closed spec fn node(&self) -> Node<K, V, usize> {
        *self.at.node
    }

    /// The root link of the tree the view belongs to.
    pub closed spec fn tree_link(&self) -> Option<Box<Node<K, V, usize>>> {
        *self.at.root
    }

    /// The key of the node.
    pub fn key(&self) -> (r: &'a K)
        ensures
            *r == self.node().key,
    {
        self.at.key()
    }

    /// The value of the node.
    pub fn value(&self) -> (r: &'a V)
        ensures
            *r == self.node().value,
    {
        self.at.value()
    }

    /// The left child.
    pub fn left(&self) -> (r: Option<Self>)
        requires
            self.wf(),
        ensures
            match self.node().left {
                None => r is None,
                Some(l) => r matches Some(c) && c.node() == *l && c.tree_link() == self.tree_link()
                    && c.wf(),
            },
    {
        match self.at.left() {
            None => None,
            Some(p) => Some(AvlNodeView { at: p }),
        }
    }

    /// The right child.
    pub fn right(&self) -> (r: Option<Self>)
        requires
            self.wf(),
        ensures
            match self.node().right {
                None => r is None,
                Some(c0) => r matches Some(c) && c.node() == *c0 && c.tree_link()
                    == self.tree_link() && c.wf(),
            },
    {
        match self.at.right() {
            None => None,
            Some(p) => Some(AvlNodeView { at: p }),
        }
    }

    /// The parent node; `None` exactly at the root.
    pub fn parent(&self) -> (r: Option<Self>)
        requires
            self.wf(),
        ensures
            r is None <==> self.tree_link() == Some(Box::new(self.node())),
            r matches Some(p) ==> p.wf() && p.tree_link() == self.tree_link() && (p.node().left
                == Some(Box::new(self.node())) || p.node().right == Some(Box::new(self.node()))),
    {
        match self.at.parent() {
            None => None,
            Some(p) => Some(AvlNodeView { at: p }),
        }
    }
}

impl<'a, K: TreeKey, V> AvlCursor<'a, K, V> {
    /// The cursor points into an ordered tree.
    pub closed spec fn wf(&self) -> bool {
        self.at.wf()
    }

    /// The entries of the tree the cursor belongs to.
    pub closed spec fn tree_map(&self) -> Map<K, V> {
        self.at.tree_map()
    }

    /// The root link of the tree the cursor belongs to.
    pub closed spec fn tree_link(&self) -> Option<Box<Node<K, V, usize>>> {
        *self.at.root
    }

    /// The node the cursor is at.
    pub closed spec fn node_at(&self) -> Node<K, V, usize> {
        *self.at.node
    }

    /// The key the cursor is at.
    pub closed spec fn key_at(&self) -> K {
        self.at.node.key
    }

    /// The value the cursor is at.
    pub closed spec fn value_at(&self) -> V {
        self.at.node.value
    }

    /// The key at the cursor.
    pub fn key(&self) -> (r: &'a K)
        ensures
            *r == self.key_at(),
    {
        self.at.key()
    }

    /// The value at the cursor.
    pub fn value(&self) -> (r: &'a V)
        ensures
            *r == self.value_at(),
    {
        self.at.value()
    }

    /// The node the cursor is at, as a node view.
    pub fn node_view(&self) -> (r: AvlNodeView<'a, K, V>)
        requires
            self.wf(),
        ensures
            r.wf(),
            r.node().key == self.key_at(),
            r.node().value == self.value_at(),
            r.node() == self.node_at(),
            r.tree_link() == self.tree_link(),
            map_of(r.tree_link()) == self.tree_map(),
    {
        AvlNodeView { at: self.at.clone() }
    }

    /// The cursor at the next smaller key, if any.
    pub fn predecessor(&self) -> (r: Option<Self>)
        requires
            self.wf(),
        ensures
            r is Some <==> has_key_below(self.tree_map(), self.key_at()),
            r matches Some(c) ==> c.wf() && c.tree_map() == self.tree_map() && c.tree_link()
                == self.tree_link() && is_prev_key(
                self.tree_map(),
                self.key_at(),
                c.key_at(),
            ) && c.value_at() == self.tree_map()[c.key_at()],
    {
        match self.at.predecessor() {
            None => None,
            Some(p) => Some(AvlCursor { at: p }),
        }
    }

    /// The cursor at the next larger key, if any.
    pub fn successor(&self) -> (r: Option<Self>)
        requires
            self.wf(),
        ensures
            r is Some <==> has_key_above(self.tree_map(), self.key_at()),
            r matches Some(c) ==> c.wf() && c.tree_map() == self.tree_map() && c.tree_link()
                == self.tree_link() && is_next_key(
                self.tree_map(),
                self.key_at(),
                c.key_at(),
            ) && c.value_at() == self.tree_map()[c.key_at()],
    {
        match self.at.successor() {
            None => None,
            Some(p) => Some(AvlCursor { at: p }),
        }
    }
}

impl<'a, K: TreeKey + Clone, V: Clone> AvlIter<'a, K, V> {
    /// The cursor of the entry the next call returns.
    pub closed spec fn upcoming(&self) -> Option<AvlCursor<'a, K, V>> {
        self.next
    }

    /// Returns clones of the current entry and moves to the next larger key.
    pub fn next(&mut self) -> (r: Option<(K, V)>)
        requires
            old(self).upcoming() matches Some(c) ==> c.wf(),
        ensures
            match old(self).upcoming() {
                None => r is None && final(self).upcoming() is None,
                Some(c) => {
                    &&& r matches Some(e) && cloned(c.key_at(), e.0) && cloned(c.value_at(), e.1)
                    &&& final(self).upcoming() is Some <==> has_key_above(c.tree_map(), c.key_at())
                    &&& final(self).upcoming() matches Some(d) ==> d.wf() && d.tree_map()
                        == c.tree_map() && is_next_key(c.tree_map(), c.key_at(), d.key_at())
                        && d.value_at() == c.tree_map()[d.key_at()]
                },
            },
    {
        match self.next.take() {
            None => None,
            Some(c) => {
                let item = (c.key().clone(), c.value().clone());
                self.next = c.successor();
                Some(item)
            },
        }
    }
}

/// An AVL tree mapping keys to values: a binary search tree in which the heights of the two subtrees of every node differ by at most one.
pub struct AvlTree<K: TreeKey, V> {
    tree: BinTree<K, V, usize>,
}

impl<K: TreeKey, V> View for AvlTree<K, V> {
    type V = Map<K, V>;

    closed spec fn view(&self) -> Map<K, V> {
        self.tree@
    }
}

impl<K: TreeKey, V> AvlTree<K, V> {
    /// The tree is ordered, counts its entries, stores correct heights and is height-balanced.
    pub closed spec fn wf(&self) -> bool {
        self.tree.wf()
    }

    /// The root link of the tree.
    pub closed spec fn shape(&self) -> Option<Box<Node<K, V, usize>>> {
        self.tree.link()
    }

    /// What holds of every well-formed tree: its nodes are ordered by key and the view is
    /// the map of its nodes.
    pub proof fn lemma_shape(&self)
        requires
            self.wf(),
        ensures
            ordered(self.shape()),
            self@ == map_of(self.shape()),
            self@.dom().finite(),
            avl_ok(self.shape()),
    {
        self.tree.lemma_inv();
    }

    /// An empty tree.
    pub fn new() -> (r: Self)
        ensures
            r.wf(),
            r@ == Map::<K, V>::empty(),
    {
        AvlTree { tree: BinTree::new() }
    }

    /// Every node of a valid AVL tree keeps the rules in its own subtree: the keys on its
    /// left are smaller than its key and those on its right larger, the heights of its two
    /// subtrees differ by at most one, and it stores its subtree's height.
    pub proof fn lemma_node_rules(&self, n: AvlNodeView<'_, K, V>)
        requires
            self.wf(),
            n.wf(),
            n.tree_link() == self.shape(),
        ensures
            ordered(Some(Box::new(n.node()))),
            avl_ok(Some(Box::new(n.node()))),
    {
        self.lemma_shape();
        lemma_subtree_facts(n.node(), n.tree_link());
        lemma_avl_ok_subtree(n.node(), n.tree_link());
    }

    /// A key names one node: two views into the tree that show the same key show the same
    /// node.
    pub proof fn lemma_one_node_per_key(&self, a: AvlNodeView<'_, K, V>, b: AvlNodeView<'_, K, V>)
        requires
            self.wf(),
            a.wf(),
            b.wf(),
            a.tree_link() == self.shape(),
            b.tree_link() == self.shape(),
            a.node().key == b.node().key,
        ensures
            a.node() == b.node(),
    {
        lemma_subtree_unique(a.node(), b.node(), self.shape());
    }

    /// A node has one parent: two views into the tree whose nodes both have the node of `c`
    /// as a child show the same node.
    pub proof fn lemma_one_parent(&self, a: AvlNodeView<'_, K, V>, b: AvlNodeView<'_, K, V>, c: AvlNodeView<'_, K, V>)
        requires
            self.wf(),
            a.wf(),
            b.wf(),
            a.tree_link() == self.shape(),
            b.tree_link() == self.shape(),
            is_child(c.node(), a.node()),
            is_child(c.node(), b.node()),
        ensures
            a.node() == b.node(),
    {
        lemma_parent_unique(a.node(), b.node(), c.node(), self.shape());
    }

    /// A child is never the root: the node of `c`, a child of the node of `n`, is not the tree's
    /// root, so the view of it has a parent.
    pub proof fn lemma_child_not_root(&self, n: AvlNodeView<'_, K, V>, c: AvlNodeView<'_, K, V>)
        requires
            self.wf(),
            n.wf(),
            n.tree_link() == self.shape(),
            is_child(c.node(), n.node()),
        ensures
            self.shape() != Some(Box::new(c.node())),
    {
        lemma_child_smaller(c.node(), n.node(), self.shape());
    }

    /// The root node, if the tree is not empty.
    pub fn root_view(&self) -> (r: Option<AvlNodeView<'_, K, V>>)
        requires
            self.wf(),
        ensures
            r is Some <==> self@.len() > 0,
            r matches Some(v) ==> v.wf() && v.tree_link() == self.shape() && self.shape() == Some(
                Box::new(v.node()),
            ),
    {
        match self.tree.root_ref() {
            None => None,
            Some(p) => Some(AvlNodeView { at: p }),
        }
    }

    /// Number of entries.
    pub fn len(&self) -> (r: usize)
        requires
            self.wf(),
        ensures
            r == self@.len(),
    {
        self.tree.len()
    }

    /// Whether the tree holds no entry.
    pub fn is_empty(&self) -> (r: bool)
        requires
            self.wf(),
        ensures
            r == (self@.len() == 0),
    {
        self.tree.is_empty()
    }

    /// Removes every entry.
    pub fn clear(&mut self)
        ensures
            final(self).wf(),
            final(self)@ == Map::<K, V>::empty(),
    {
        self.tree.clear()
    }

    /// The cursor at `key`, if present.
    pub fn cursor(&self, key: &K) -> (r: Option<AvlCursor<'_, K, V>>)
        requires
            self.wf(),
        ensures
            r is Some <==> self@.dom().contains(*key),
            r matches Some(c) ==> c.wf() && c.tree_map() == self@ && c.tree_link() == self.shape() && c.key_at() == *key
                && c.value_at() == self@[*key],
    {
        match self.tree.cursor(key) {
            None => None,
            Some(p) => Some(AvlCursor { at: p }),
        }
    }

    /// Whether `key` is present.
    pub fn contains_key(&self, key: &K) -> (r: bool)
        requires
            self.wf(),
        ensures
            r == self@.dom().contains(*key),
    {
        self.tree.contains_key(key)
    }

    /// The cursor at the smallest key, if the tree is not empty.
    pub fn min_cursor(&self) -> (r: Option<AvlCursor<'_, K, V>>)
        requires
            self.wf(),
        ensures
            r is Some <==> self@.len() > 0,
            r matches Some(c) ==> c.wf() && c.tree_map() == self@ && c.tree_link() == self.shape() && is_min_key(self@, c.key_at())
                && c.value_at() == self@[c.key_at()],
    {
        match self.tree.min_cursor() {
            None => None,
            Some(p) => Some(AvlCursor { at: p }),
        }
    }

    /// The cursor at the largest key, if the tree is not empty.
    pub fn max_cursor(&self) -> (r: Option<AvlCursor<'_, K, V>>)
        requires
            self.wf(),
        ensures
            r is Some <==> self@.len() > 0,
            r matches Some(c) ==> c.wf() && c.tree_map() == self@ && c.tree_link() == self.shape() && is_max_key(self@, c.key_at())
                && c.value_at() == self@[c.key_at()],
    {
        match self.tree.max_cursor() {
            None => None,
            Some(p) => Some(AvlCursor { at: p }),
        }
    }

    /// Adds `key -> value`, or replaces the value of an equal key; returns the replaced value.
    pub fn insert_entry(&mut self, key: K, value: V) -> (r: Option<V>)
        requires
            old(self).wf(),
            old(self)@.len() < usize::MAX,
        ensures
            final(self).wf(),
            final(self)@ == old(self)@.insert(key, value),
            final(self).shape() == avl_put(old(self).shape(), key, value),
            r == (if old(self)@.dom().contains(key) {
                Some(old(self)@[key])
            } else {
                None::<V>
            }),
    {
        self.tree.avl_insert(key, value)
    }

    /// Removes `key`; returns its value if it was present.
    pub fn remove_key(&mut self, key: &K) -> (r: Option<V>)
        requires
            old(self).wf(),
        ensures
            final(self).wf(),
            final(self)@ == old(self)@.remove(*key),
            final(self).shape() == avl_del(old(self).shape(), *key),
            r == (if old(self)@.dom().contains(*key) {
                Some(old(self)@[*key])
            } else {
                None::<V>
            }),
    {
        self.tree.avl_remove(key)
    }

    /// Walks the entries in increasing key order.
    pub fn iter(&self) -> (r: AvlIter<'_, K, V>) where K: Clone, V: Clone
        requires
            self.wf(),
        ensures
            r.upcoming() is Some <==> self@.len() > 0,
            r.upcoming() matches Some(c) ==> c.wf() && c.tree_map() == self@ && is_min_key(
                self@,
                c.key_at(),
            ) && c.value_at() == self@[c.key_at()],
    {
        AvlIter { next: self.min_cursor() }
    }

    /// A tree holding `entries`, inserted in order: a later entry replaces an earlier one
    /// with an equal key.
    pub fn from_iter(entries: Vec<(K, V)>) -> (r: Self)
        ensures
            r.wf(),
            r@ == entries_to_map(entries@),
    {
        let mut tree = Self::new();
        let ghost all = entries@;
        let n = entries.len();
        proof {
            assert(all.len() == n);
        }
        for e in it: entries.into_iter()
            invariant
                it.seq() == all,
                all.len() <= usize::MAX,
                tree.wf(),
                tree@ == entries_to_map(all.take(it.index())),
        {
            proof {
                lemma_entries_to_map_len(all.take(it.index()));
                assert(all.take(it.index() + 1).drop_last() =~= all.take(it.index()));
            }
            let (k, v) = e;
            tree.insert_entry(k, v);
        }
        proof {
            assert(all.take(all.len() as int) =~= all);
        }
        tree
    }

    /// Same as [`Self::insert_entry`].
    pub fn insert(&mut self, key: K, value: V) -> (r: Option<V>)
        requires
            old(self).wf(),
            old(self)@.len() < usize::MAX,
        ensures
            final(self).wf(),
            final(self)@ == old(self)@.insert(key, value),
            final(self).shape() == avl_put(old(self).shape(), key, value),
            r == (if old(self)@.dom().contains(key) {
                Some(old(self)@[key])
            } else {
                None::<V>
            }),
    {
        self.insert_entry(key, value)
    }

    /// Same as [`Self::remove_key`].
    pub fn remove(&mut self, key: &K) -> (r: Option<V>)
        requires
            old(self).wf(),
        ensures
            final(self).wf(),
            final(self)@ == old(self)@.remove(*key),
            final(self).shape() == avl_del(old(self).shape(), *key),
            r == (if old(self)@.dom().contains(*key) {
                Some(old(self)@[*key])
            } else {
                None::<V>
            }),
    {
        self.remove_key(key)
    }

    /// The node view of a cursor of this tree.
    pub fn view_from_cursor<'a>(&'a self, cursor: &AvlCursor<'a, K, V>) -> (r: AvlNodeView<
        'a,
        K,
        V,
    >)
        requires
            cursor.wf(),
        ensures
            r.wf(),
            r.node().key == cursor.key_at(),
            map_of(r.tree_link()) == cursor.tree_map(),
    {
        cursor.node_view()
    }

    /// Same as [`Self::min_cursor`].
    pub fn first_cursor(&self) -> (r: Option<AvlCursor<'_, K, V>>)
        requires
            self.wf(),
        ensures
            r is Some <==> self@.len() > 0,
            r matches Some(c) ==> c.wf() && c.tree_map() == self@ && c.tree_link() == self.shape() && is_min_key(self@, c.key_at()),
    {
        self.min_cursor()
    }

    /// Same as [`Self::max_cursor`].
    pub fn last_cursor(&self) -> (r: Option<AvlCursor<'_, K, V>>)
        requires
            self.wf(),
        ensures
            r is Some <==> self@.len() > 0,
            r matches Some(c) ==> c.wf() && c.tree_map() == self@ && c.tree_link() == self.shape() && is_max_key(self@, c.key_at()),
    {
        self.max_cursor()
    }

    /// Number of nodes on the longest root-to-leaf path.
    pub fn height(&self) -> (r: usize)
        requires
            self.wf(),
        ensures
            r == height_of(self.shape()),
    {
        self.tree.height()
    }

    /// Number of nodes, which is the number of entries.
    pub fn node_count(&self) -> (r: usize)
        requires
            self.wf(),
        ensures
            r == self@.len(),
    {
        self.tree.len()
    }

    /// Height of the subtree below the cursor's node.
    pub fn node_height(&self, cursor: &AvlCursor<'_, K, V>) -> (r: usize)
        requires
            self.wf(),
            cursor.wf(),
            cursor.tree_link() == self.shape(),
        ensures
            r == height_of(Some(Box::new(cursor.node_at()))),
    {
        self.tree.node_height(&cursor.at)
    }
}

} // verus!
