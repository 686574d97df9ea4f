//! A read-only position inside a binary search tree: the tree's root link and one of its nodes.
//! Cursors and node views of the binary tree kinds are built on it.
use vstd::prelude::*;

use crate::key::{KeyOrder, TreeKey};
use crate::trees::node::{
    has_key_above, has_key_below, height_link, height_of, is_next_key, is_prev_key, is_subtree,
    lemma_children_are_subtrees, lemma_height_le_size, lemma_subtree_descend, lemma_subtree_facts,
    map_of, next_node, ordered, prev_node, size_of, Node,
};

verus! {

/// A node of a tree together with the tree it belongs to.
pub struct NodeRef<'a, K, V, A> {
    pub root: &'a Option<Box<Node<K, V, A>>>,
    pub node: &'a Node<K, V, A>,
}

impl<'a, K, V, A> Clone for NodeRef<'a, K, V, A> {
    fn clone(&self) -> (r: Self)
        ensures
            r == *self,
    {
        NodeRef { root: self.root, node: self.node }
    }
}

impl<'a, K: TreeKey, V, A> NodeRef<'a, K, V, A> {
    /// The tree is ordered and the node is one of its subtrees.
    pub open spec fn wf(&self) -> bool {
        ordered(*self.root) && is_subtree(*self.node, *self.root)
    }

    /// The entries of the whole tree.
    pub open spec fn tree_map(&self) -> Map<K, V> {
        map_of(*self.root)
    }

    /// A position at the node `node` of the tree `root`.
    pub fn at(root: &'a Option<Box<Node<K, V, A>>>, node: &'a Node<K, V, A>) -> (r: Self)
        ensures
            r.root == root,
            r.node == node,
    {
        NodeRef { root, node }
    }

    /// The key stored at this position.
    pub fn key(&self) -> (r: &'a K)
        ensures
            *r == self.node.key,
    {
        &self.node.key
    }

    /// The value stored at this position.
    pub fn value(&self) -> (r: &'a V)
        ensures
            *r == self.node.value,
    {
        &self.node.value
    }

    /// The position of the left child, if any.
    pub fn left(&self) -> (r: Option<Self>)
        requires
            self.wf(),
        ensures
            match self.node.left {
                None => r is None,
                Some(l) => r matches Some(p) && *p.node == *l && p.root == self.root && p.wf(),
            },
    {
        match &self.node.left {
            None => None,
            Some(l) => {
                proof {
                    lemma_children_are_subtrees(*self.node, *self.root);
                }
                Some(NodeRef { root: self.root, node: &**l })
            },
        }
    }

    /// The position of the right child, if any.
    pub fn right(&self) -> (r: Option<Self>)
        requires
            self.wf(),
        ensures
            match self.node.right {
                None => r is None,
                Some(c) => r matches Some(p) && *p.node == *c && p.root == self.root && p.wf(),
            },
    {
        match &self.node.right {
            None => None,
            Some(c) => {
                proof {
                    lemma_children_are_subtrees(*self.node, *self.root);
                }
                Some(NodeRef { root: self.root, node: &**c })
            },
        }
    }

    /// The position of the parent node; `None` exactly at the root.
    pub fn parent(&self) -> (r: Option<Self>)
        requires
            self.wf(),
        ensures
            r is None <==> *self.root == Some(Box::new(*self.node)),
            r matches Some(p) ==> p.root == self.root && p.wf() && (p.node.left == Some(
                Box::new(*self.node),
            ) || p.node.right == Some(Box::new(*self.node))),
    {
        let root: &'a Box<Node<K, V, A>> = self.root.as_ref().unwrap();
        proof {
            lemma_subtree_descend(*self.node, *root);
            assert(is_subtree(**root, *self.root));
        }
        if let KeyOrder::Equal = self.node.key.compare(&root.key) {
            return None;
        }
        let mut cur: &'a Box<Node<K, V, A>> = root;
        loop
            invariant
                self.wf(),
                ordered(Some(*cur)),
                is_subtree(**cur, *self.root),
                is_subtree(*self.node, Some(*cur)),
                self.node.key != cur.key,
                *self.root != Some(Box::new(*self.node)),
            decreases *cur,
        {
            proof {
                lemma_subtree_descend(*self.node, *cur);
                lemma_children_are_subtrees(**cur, *self.root);
            }
            let child = match self.node.key.compare(&cur.key) {
                KeyOrder::Less => &cur.left,
                _ => &cur.right,
            };
            match child {
                None => {
                    proof {
                        assert(false);
                    }
                    return None;
                },
                Some(c) => {
                    proof {
                        lemma_subtree_facts(**c, *self.root);
                        lemma_subtree_descend(*self.node, *c);
                    }
                    if let KeyOrder::Equal = self.node.key.compare(&c.key) {
                        assert(*self.node == **c);
                        return Some(NodeRef { root: self.root, node: &**cur });
                    }
                    cur = c;
                },
            }
        }
    }

    /// The position holding the next larger key of the tree, if any.
    pub fn successor(&self) -> (r: Option<Self>)
        requires
            self.wf(),
        ensures
            r is Some <==> has_key_above(self.tree_map(), self.node.key),
            r matches Some(p) ==> p.root == self.root && p.wf() && is_next_key(
                self.tree_map(),
                self.node.key,
                p.node.key,
            ) && self.tree_map()[p.node.key] == p.node.value,
    {
        match next_node(self.root, &self.node.key) {
            None => None,
            Some(n) => Some(NodeRef { root: self.root, node: n }),
        }
    }

    /// The position holding the next smaller key of the tree, if any.
    pub fn predecessor(&self) -> (r: Option<Self>)
        requires
            self.wf(),
        ensures
            r is Some <==> has_key_below(self.tree_map(), self.node.key),
            r matches Some(p) ==> p.root == self.root && p.wf() && is_prev_key(
                self.tree_map(),
                self.node.key,
                p.node.key,
            ) && self.tree_map()[p.node.key] == p.node.value,
    {
        match prev_node(self.root, &self.node.key) {
            None => None,
            Some(n) => Some(NodeRef { root: self.root, node: n }),
        }
    }

    /// Height of the subtree below this position.
    pub fn subtree_height(&self) -> (h: usize)
        requires
            self.wf(),
            size_of(*self.root) <= usize::MAX,
        ensures
            h == height_of(Some(Box::new(*self.node))),
    {
        proof {
            lemma_subtree_facts(*self.node, *self.root);
        }
        1 + {
            proof {
                lemma_height_le_size(Some(Box::new(*self.node)));
            }
            let hl = height_link(&self.node.left);
            let hr = height_link(&self.node.right);
            if hl >= hr {
                hl
            } else {
                hr
            }
        }
    }
}

} // verus!
