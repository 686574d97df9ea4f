//! A binary search tree kept in an index-linked arena (see `arena_store`), with the read
//! operations of `bin_tree` done over slot indices, and positions (`ARef`) that mirror
//! `node_ref`. The owned-node model that the arena holds (`holds`) is the tree's shape, so the
//! contracts over shapes carry over unchanged.
use vstd::prelude::*;

use crate::key::{KeyOrder, TreeKey};
use crate::trees::arena_store::{foot, holds, lemma_foot_live, ANode, Arena};
use crate::trees::bin_tree::{BinTree, Shape};
use crate::trees::node::{
    entries_within, has_key_above, has_key_below, height_of, is_max_key, is_min_key, is_next_key,
    is_prev_key, is_subtree, lemma_children_are_subtrees, lemma_height_le_size, lemma_map_facts,
    lemma_map_finite_size, lemma_subtree_descend, lemma_subtree_facts, lemma_subtree_key, map_of,
    ordered, seq_of, size_of, Node,
};

verus! {

/// The slot of a node holds the slots of its children as its subtrees.
pub proof fn lemma_holds_child<K, V, A>(s: Seq<Option<ANode<K, V, A>>>, x: usize, n: Node<K, V, A>)
    requires
        holds(s, Some(x), Some(Box::new(n))),
    ensures
        x < s.len(),
        s[x as int] is Some,
        s[x as int]->0.key == n.key,
        s[x as int]->0.value == n.value,
        s[x as int]->0.aux == n.aux,
        holds(s, s[x as int]->0.left, n.left),
        holds(s, s[x as int]->0.right, n.right),
        s[x as int]->0.left is Some <==> n.left is Some,
        s[x as int]->0.right is Some <==> n.right is Some,
        n.left matches Some(l) ==> holds(s, s[x as int]->0.left, Some(Box::new(*l))),
        n.right matches Some(c) ==> holds(s, s[x as int]->0.right, Some(Box::new(*c))),
{
    let b = Box::new(n);
    assert(holds(s, Some(x), Some(b)));
    let a = s[x as int]->0;
    match n.left {
        None => {
            assert(holds(s, a.left, None));
        },
        Some(l) => {
            assert(Box::new(*l) == l);
            assert(holds(s, a.left, Some(l)));
        },
    }
    match n.right {
        None => {
            assert(holds(s, a.right, None));
        },
        Some(c) => {
            assert(Box::new(*c) == c);
            assert(holds(s, a.right, Some(c)));
        },
    }
}

/// A node of a tree kept in an arena, with the arena and the tree's root slot.
pub struct ARef<'a, K: TreeKey, V, A> {
    pub(crate) arena: &'a Arena<K, V, A>,
    pub(crate) root: Option<usize>,
    pub(crate) idx: usize,
    pub(crate) root_t: Ghost<Option<Box<Node<K, V, A>>>>,
    pub(crate) node: Ghost<Node<K, V, A>>,
}

impl<'a, K: TreeKey, V, A> ARef<'a, K, V, A> {
    /// The arena holds the tree at the root slot and the node at its slot; the tree is ordered
    /// and the node is one of its subtrees.
    #[verifier::type_invariant]
    pub(crate) closed spec fn inv(self) -> bool {
        &&& ordered(self.root_t@)
        &&& is_subtree(self.node@, self.root_t@)
        &&& holds(self.arena.nodes@, self.root, self.root_t@)
        &&& holds(self.arena.nodes@, Some(self.idx), Some(Box::new(self.node@)))
    }

    /// The tree is ordered and the node is one of its subtrees.
    pub open(crate) spec fn wf(&self) -> bool {
        ordered(self.root_t@) && is_subtree(self.node@, self.root_t@)
    }

    /// The entries of the whole tree.
    pub open(crate) spec fn tree_map(&self) -> Map<K, V> {
        map_of(self.root_t@)
    }

    /// A copy of the position.
    pub(crate) fn copy(&self) -> (r: Self)
        ensures
            r == *self,
    {
        proof {
            use_type_invariant(self);
        }
        ARef {
            arena: self.arena,
            root: self.root,
            idx: self.idx,
            root_t: Ghost(self.root_t@),
            node: Ghost(self.node@),
        }
    }

    /// The key stored at this position.
    pub(crate) fn key(&self) -> (r: &'a K)
        ensures
            *r == self.node@.key,
    {
        proof {
            use_type_invariant(self);
        }
        &self.arena.node(self.idx).key
    }

    /// The value stored at this position.
    pub(crate) fn value(&self) -> (r: &'a V)
        ensures
            *r == self.node@.value,
    {
        proof {
            use_type_invariant(self);
        }
        &self.arena.node(self.idx).value
    }

    /// The balance data stored at this position.
    pub(crate) fn aux(&self) -> (r: &'a A)
        ensures
            *r == self.node@.aux,
    {
        proof {
            use_type_invariant(self);
        }
        &self.arena.node(self.idx).aux
    }

    /// The position of the left child, if any.
    pub(crate) fn left(&self) -> (r: Option<Self>)
        ensures
            match self.node@.left {
                None => r is None,
                Some(l) => r matches Some(p) && p.node@ == *l && p.root_t == self.root_t && p.wf(),
            },
    {
        proof {
            use_type_invariant(self);
        }
        let n = self.arena.node(self.idx);
        proof {
            lemma_holds_child(self.arena.nodes@, self.idx, self.node@);
        }
        match n.left {
            None => None,
            Some(li) => {
                let ghost l = *self.node@.left->0;
                proof {
                    lemma_children_are_subtrees(self.node@, self.root_t@);
                    assert(Box::new(l) == self.node@.left->0);
                }
                Some(
                    ARef {
                        arena: self.arena,
                        root: self.root,
                        idx: li,
                        root_t: Ghost(self.root_t@),
                        node: Ghost(l),
                    },
                )
            },
        }
    }

    /// The position of the right child, if any.
    pub(crate) fn right(&self) -> (r: Option<Self>)
        ensures
            match self.node@.right {
                None => r is None,
                Some(c) => r matches Some(p) && p.node@ == *c && p.root_t == self.root_t && p.wf(),
            },
    {
        proof {
            use_type_invariant(self);
        }
        let n = self.arena.node(self.idx);
        proof {
            lemma_holds_child(self.arena.nodes@, self.idx, self.node@);
        }
        match n.right {
            None => None,
            Some(ri) => {
                let ghost c = *self.node@.right->0;
                proof {
                    lemma_children_are_subtrees(self.node@, self.root_t@);
                    assert(Box::new(c) == self.node@.right->0);
                }
                Some(
                    ARef {
                        arena: self.arena,
                        root: self.root,
                        idx: ri,
                        root_t: Ghost(self.root_t@),
                        node: Ghost(c),
                    },
                )
            },
        }
    }
}

/// The slot holding `key` in the subtree at `t_idx`, and its node (see `find_node`).
pub(crate) fn find_slot<K: TreeKey, V, A>(
    arena: &Arena<K, V, A>,
    t_idx: Option<usize>,
    Ghost(t): Ghost<Option<Box<Node<K, V, A>>>>,
    key: &K,
) -> (r: Option<(usize, Ghost<Node<K, V, A>>)>)
    requires
        ordered(t),
        holds(arena.nodes@, t_idx, t),
    ensures
        r is Some <==> map_of(t).dom().contains(*key),
        r matches Some(p) ==> p.1@.key == *key && p.1@.value == map_of(t)[*key] && is_subtree(p.1@, t)
            && holds(arena.nodes@, Some(p.0), Some(Box::new(p.1@))),
{
    let mut ci = t_idx;
    let ghost mut cur = t;
    loop
        invariant
            ordered(cur),
            holds(arena.nodes@, ci, cur),
            entries_within(map_of(cur), map_of(t)),
            map_of(t).dom().contains(*key) ==> map_of(cur).dom().contains(*key),
            forall|s: Node<K, V, A>| is_subtree(s, cur) ==> is_subtree(s, t),
        decreases cur,
    {
        match ci {
            None => {
                return None;
            },
            Some(x) => {
                let ghost n = cur->0;
                proof {
                    lemma_map_facts(n);
                    assert(Box::new(*n) == n);
                    lemma_holds_child(arena.nodes@, x, *n);
                }
                let an = arena.node(x);
                match key.compare(&an.key) {
                    KeyOrder::Equal => {
                        assert(map_of(cur).dom().contains(n.key));
                        assert(is_subtree(*n, cur));
                        return Some((x, Ghost(*n)));
                    },
                    KeyOrder::Less => {
                        ci = an.left;
                        proof {
                            cur = n.left;
                        }
                    },
                    KeyOrder::Greater => {
                        ci = an.right;
                        proof {
                            cur = n.right;
                        }
                    },
                }
            },
        }
    }
}

/// The slot with the smallest key of the subtree at `t_idx` (see `min_node`).
pub(crate) fn min_slot<K: TreeKey, V, A>(
    arena: &Arena<K, V, A>,
    t_idx: Option<usize>,
    Ghost(t): Ghost<Option<Box<Node<K, V, A>>>>,
) -> (r: Option<(usize, Ghost<Node<K, V, A>>)>)
    requires
        ordered(t),
        holds(arena.nodes@, t_idx, t),
    ensures
        r is Some <==> t is Some,
        r matches Some(p) ==> is_min_key(map_of(t), p.1@.key) && map_of(t)[p.1@.key] == p.1@.value
            && is_subtree(p.1@, t) && holds(arena.nodes@, Some(p.0), Some(Box::new(p.1@))),
{
    match t_idx {
        None => None,
        Some(x0) => {
            let mut x = x0;
            let ghost mut cur = t->0;
            proof {
                assert(is_subtree(*cur, t));
            }
            loop
                invariant
                    ordered(Some(cur)),
                    is_subtree(*cur, t),
                    ordered(t),
                    holds(arena.nodes@, Some(x), Some(cur)),
                    forall|j: K| #[trigger] map_of(t).dom().contains(j) ==> map_of(Some(cur)).dom().contains(j)
                        || j.rank() > cur.key.rank(),
                decreases cur,
            {
                proof {
                    lemma_map_facts(cur);
                    assert(Box::new(*cur) == cur);
                    lemma_holds_child(arena.nodes@, x, *cur);
                }
                let an = arena.node(x);
                match an.left {
                    None => {
                        proof {
                            lemma_subtree_key(*cur, t);
                        }
                        return Some((x, Ghost(*cur)));
                    },
                    Some(li) => {
                        proof {
                            lemma_children_are_subtrees(*cur, t);
                            lemma_map_facts(cur.left->0);
                        }
                        x = li;
                        proof {
                            cur = cur.left->0;
                        }
                    },
                }
            }
        },
    }
}

/// The slot with the largest key of the subtree at `t_idx` (see `max_node`).
pub(crate) fn max_slot<K: TreeKey, V, A>(
    arena: &Arena<K, V, A>,
    t_idx: Option<usize>,
    Ghost(t): Ghost<Option<Box<Node<K, V, A>>>>,
) -> (r: Option<(usize, Ghost<Node<K, V, A>>)>)
    requires
        ordered(t),
        holds(arena.nodes@, t_idx, t),
    ensures
        r is Some <==> t is Some,
        r matches Some(p) ==> is_max_key(map_of(t), p.1@.key) && map_of(t)[p.1@.key] == p.1@.value
            && is_subtree(p.1@, t) && holds(arena.nodes@, Some(p.0), Some(Box::new(p.1@))),
{
    match t_idx {
        None => None,
        Some(x0) => {
            let mut x = x0;
            let ghost mut cur = t->0;
            proof {
                assert(is_subtree(*cur, t));
            }
            loop
                invariant
                    ordered(Some(cur)),
                    is_subtree(*cur, t),
                    ordered(t),
                    holds(arena.nodes@, Some(x), Some(cur)),
                    forall|j: K| #[trigger] map_of(t).dom().contains(j) ==> map_of(Some(cur)).dom().contains(j)
                        || j.rank() < cur.key.rank(),
                decreases cur,
            {
                proof {
                    lemma_map_facts(cur);
                    assert(Box::new(*cur) == cur);
                    lemma_holds_child(arena.nodes@, x, *cur);
                }
                let an = arena.node(x);
                match an.right {
                    None => {
                        proof {
                            lemma_subtree_key(*cur, t);
                        }
                        return Some((x, Ghost(*cur)));
                    },
                    Some(ri) => {
                        proof {
                            lemma_children_are_subtrees(*cur, t);
                            lemma_map_facts(cur.right->0);
                        }
                        x = ri;
                        proof {
                            cur = cur.right->0;
                        }
                    },
                }
            }
        },
    }
}

/// The slot whose key is the smallest one ranking above `key` (see `next_node`).
pub(crate) fn next_slot<K: TreeKey, V, A>(
    arena: &Arena<K, V, A>,
    t_idx: Option<usize>,
    Ghost(t): Ghost<Option<Box<Node<K, V, A>>>>,
    key: &K,
) -> (r: Option<(usize, Ghost<Node<K, V, A>>)>)
    requires
        ordered(t),
        holds(arena.nodes@, t_idx, t),
    ensures
        r is Some <==> has_key_above(map_of(t), *key),
        r matches Some(p) ==> is_next_key(map_of(t), *key, p.1@.key) && map_of(t)[p.1@.key] == p.1@.value
            && is_subtree(p.1@, t) && holds(arena.nodes@, Some(p.0), Some(Box::new(p.1@))),
{
    let mut ci = t_idx;
    let ghost mut cur = t;
    let mut cand: Option<(usize, Ghost<Node<K, V, A>>)> = None;
    loop
        invariant
            ordered(cur),
            ordered(t),
            holds(arena.nodes@, ci, cur),
            entries_within(map_of(cur), map_of(t)),
            forall|s: Node<K, V, A>| is_subtree(s, cur) ==> is_subtree(s, t),
            cand matches Some(p) ==> map_of(t).dom().contains(p.1@.key) && map_of(t)[p.1@.key] == p.1@.value
                && p.1@.key.rank() > key.rank() && is_subtree(p.1@, t) && holds(arena.nodes@, Some(p.0), Some(Box::new(p.1@)))
                && forall|j: K| #[trigger] map_of(cur).dom().contains(j) ==> j.rank() < p.1@.key.rank(),
            forall|j: K| #[trigger] map_of(t).dom().contains(j) && j.rank() > key.rank() ==> map_of(
                cur,
            ).dom().contains(j) || (cand matches Some(p) && j.rank() >= p.1@.key.rank()),
        decreases cur,
    {
        match ci {
            None => {
                return cand;
            },
            Some(x) => {
                let ghost n = cur->0;
                proof {
                    lemma_map_facts(n);
                    assert(is_subtree(*n, cur));
                    assert(Box::new(*n) == n);
                    lemma_holds_child(arena.nodes@, x, *n);
                }
                let an = arena.node(x);
                match key.compare(&an.key) {
                    KeyOrder::Less => {
                        cand = Some((x, Ghost(*n)));
                        ci = an.left;
                        proof {
                            cur = n.left;
                        }
                    },
                    _ => {
                        ci = an.right;
                        proof {
                            cur = n.right;
                        }
                    },
                }
            },
        }
    }
}

/// The slot whose key is the largest one ranking below `key` (see `prev_node`).
pub(crate) fn prev_slot<K: TreeKey, V, A>(
    arena: &Arena<K, V, A>,
    t_idx: Option<usize>,
    Ghost(t): Ghost<Option<Box<Node<K, V, A>>>>,
    key: &K,
) -> (r: Option<(usize, Ghost<Node<K, V, A>>)>)
    requires
        ordered(t),
        holds(arena.nodes@, t_idx, t),
    ensures
        r is Some <==> has_key_below(map_of(t), *key),
        r matches Some(p) ==> is_prev_key(map_of(t), *key, p.1@.key) && map_of(t)[p.1@.key] == p.1@.value
            && is_subtree(p.1@, t) && holds(arena.nodes@, Some(p.0), Some(Box::new(p.1@))),
{
    let mut ci = t_idx;
    let ghost mut cur = t;
    let mut cand: Option<(usize, Ghost<Node<K, V, A>>)> = None;
    loop
        invariant
            ordered(cur),
            ordered(t),
            holds(arena.nodes@, ci, cur),
            entries_within(map_of(cur), map_of(t)),
            forall|s: Node<K, V, A>| is_subtree(s, cur) ==> is_subtree(s, t),
            cand matches Some(p) ==> map_of(t).dom().contains(p.1@.key) && map_of(t)[p.1@.key] == p.1@.value
                && p.1@.key.rank() < key.rank() && is_subtree(p.1@, t) && holds(arena.nodes@, Some(p.0), Some(Box::new(p.1@)))
                && forall|j: K| #[trigger] map_of(cur).dom().contains(j) ==> j.rank() > p.1@.key.rank(),
            forall|j: K| #[trigger] map_of(t).dom().contains(j) && j.rank() < key.rank() ==> map_of(
                cur,
            ).dom().contains(j) || (cand matches Some(p) && j.rank() <= p.1@.key.rank()),
        decreases cur,
    {
        match ci {
            None => {
                return cand;
            },
            Some(x) => {
                let ghost n = cur->0;
                proof {
                    lemma_map_facts(n);
                    assert(is_subtree(*n, cur));
                    assert(Box::new(*n) == n);
                    lemma_holds_child(arena.nodes@, x, *n);
                }
                let an = arena.node(x);
                match key.compare(&an.key) {
                    KeyOrder::Greater => {
                        cand = Some((x, Ghost(*n)));
                        ci = an.right;
                        proof {
                            cur = n.right;
                        }
                    },
                    _ => {
                        ci = an.left;
                        proof {
                            cur = n.left;
                        }
                    },
                }
            },
        }
    }
}

/// Height of the subtree at `t_idx`, counted in nodes (see `height_link`).
pub(crate) fn height_slot<K, V, A>(
    arena: &Arena<K, V, A>,
    t_idx: Option<usize>,
    Ghost(t): Ghost<Option<Box<Node<K, V, A>>>>,
) -> (h: usize)
    requires
        holds(arena.nodes@, t_idx, t),
        size_of(t) <= usize::MAX,
    ensures
        h == height_of(t),
    decreases t,
{
    match t_idx {
        None => 0,
        Some(x) => {
            let ghost n = t->0;
            proof {
                assert(Box::new(*n) == n);
                lemma_holds_child(arena.nodes@, x, *n);
                lemma_height_le_size(n.left);
                lemma_height_le_size(n.right);
            }
            let an = arena.node(x);
            let hl = height_slot(arena, an.left, Ghost(n.left));
            let hr = height_slot(arena, an.right, Ghost(n.right));
            if hl >= hr {
                hl + 1
            } else {
                hr + 1
            }
        },
    }
}

/// Appends clones of the entries of the subtree at `t_idx`, in key order.
fn collect_slots<K: TreeKey + Clone, V: Clone, A>(
    arena: &Arena<K, V, A>,
    t_idx: Option<usize>,
    Ghost(t): Ghost<Option<Box<Node<K, V, A>>>>,
    out: &mut Vec<(K, V)>,
)
    requires
        holds(arena.nodes@, t_idx, t),
    ensures
        final(out)@.len() == old(out)@.len() + seq_of(t).len(),
        forall|i: int| 0 <= i < old(out)@.len() ==> final(out)@[i] == old(out)@[i],
        forall|i: int|
            0 <= i < seq_of(t).len() ==> cloned((#[trigger] seq_of(t)[i]).0, final(out)@[old(
                out,
            )@.len() + i].0) && cloned(seq_of(t)[i].1, final(out)@[old(out)@.len() + i].1),
    decreases t,
{
    match t_idx {
        None => {},
        Some(x) => {
            let ghost n = t->0;
            proof {
                assert(Box::new(*n) == n);
                lemma_holds_child(arena.nodes@, x, *n);
            }
            let an = arena.node(x);
            let ghost o0 = out@;
            collect_slots(arena, an.left, Ghost(n.left), out);
            let ghost o1 = out@;
            out.push((an.key.clone(), an.value.clone()));
            let ghost o2 = out@;
            collect_slots(arena, an.right, Ghost(n.right), out);
            proof {
                let sl = seq_of(n.left);
                let sq = seq_of(t);
                assert(sq == sl + seq![(n.key, n.value)] + seq_of(n.right));
                assert forall|i: int| 0 <= i < sq.len() implies cloned(
                    (#[trigger] sq[i]).0,
                    out@[o0.len() + i].0,
                ) && cloned(sq[i].1, out@[o0.len() + i].1) by {
                    if i < sl.len() {
                        assert(sq[i] == sl[i]);
                        assert(out@[o0.len() + i] == o1[o0.len() + i]);
                    } else if i == sl.len() {
                        assert(out@[o0.len() + i] == o2[o1.len() as int]);
                    } else {
                        assert(sq[i] == seq_of(n.right)[i - sl.len() - 1]);
                        assert(o0.len() + i == o2.len() + (i - sl.len() - 1));
                    }
                }
            }
        },
    }
}

impl<'a, K: TreeKey, V, A> ARef<'a, K, V, A> {
    /// A position at the slot `idx` of the tree at `root`.
    pub(crate) fn at(
        arena: &'a Arena<K, V, A>,
        root: Option<usize>,
        idx: usize,
        Ghost(root_t): Ghost<Option<Box<Node<K, V, A>>>>,
        Ghost(node): Ghost<Node<K, V, A>>,
    ) -> (r: Self)
        requires
            ordered(root_t),
            is_subtree(node, root_t),
            holds(arena.nodes@, root, root_t),
            holds(arena.nodes@, Some(idx), Some(Box::new(node))),
        ensures
            r.root_t@ == root_t,
            r.node@ == node,
            r.wf(),
    {
        ARef { arena, root, idx, root_t: Ghost(root_t), node: Ghost(node) }
    }

    /// The position of the parent node; `None` exactly at the root.
    pub(crate) fn parent(&self) -> (r: Option<Self>)
        ensures
            r is None <==> self.root_t@ == Some(Box::new(self.node@)),
            r matches Some(p) ==> p.root_t == self.root_t && p.wf() && (p.node@.left == Some(
                Box::new(self.node@),
            ) || p.node@.right == Some(Box::new(self.node@))),
    {
        proof {
            use_type_invariant(self);
        }
        let ghost root = self.root_t@->0;
        let rx = self.root.unwrap();
        proof {
            lemma_subtree_descend(self.node@, root);
            assert(is_subtree(*root, self.root_t@));
            assert(Box::new(*root) == root);
            lemma_holds_child(self.arena.nodes@, rx, *root);
        }
        let key = self.key();
        if let KeyOrder::Equal = key.compare(&self.arena.node(rx).key) {
            return None;
        }
        let mut x = rx;
        let ghost mut cur = root;
        loop
            invariant
                self.wf(),
                ordered(Some(cur)),
                is_subtree(*cur, self.root_t@),
                is_subtree(self.node@, Some(cur)),
                self.node@.key != cur.key,
                self.root_t@ != Some(Box::new(self.node@)),
                holds(self.arena.nodes@, Some(x), Some(cur)),
                holds(self.arena.nodes@, self.root, self.root_t@),
                *key == self.node@.key,
            decreases cur,
        {
            proof {
                lemma_subtree_descend(self.node@, cur);
                lemma_children_are_subtrees(*cur, self.root_t@);
                assert(Box::new(*cur) == cur);
                lemma_holds_child(self.arena.nodes@, x, *cur);
            }
            let an = self.arena.node(x);
            let go_left = match key.compare(&an.key) {
                KeyOrder::Less => true,
                _ => false,
            };
            let ci = if go_left {
                an.left
            } else {
                an.right
            };
            let ghost child = if go_left {
                cur.left
            } else {
                cur.right
            };
            match ci {
                None => {
                    proof {
                        assert(false);
                    }
                    return None;
                },
                Some(c) => {
                    let ghost cn = child->0;
                    proof {
                        lemma_subtree_facts(*cn, self.root_t@);
                        lemma_subtree_descend(self.node@, cn);
                        assert(Box::new(*cn) == cn);
                        lemma_holds_child(self.arena.nodes@, c, *cn);
                    }
                    if let KeyOrder::Equal = key.compare(&self.arena.node(c).key) {
                        assert(self.node@ == *cn);
                        assert(Box::new(*cur) == cur);
                        assert(holds(self.arena.nodes@, Some(x), Some(Box::new(*cur))));
                        assert(ordered(self.root_t@));
                        assert(holds(self.arena.nodes@, self.root, self.root_t@));
                        return Some(
                            ARef {
                                arena: self.arena,
                                root: self.root,
                                idx: x,
                                root_t: Ghost(self.root_t@),
                                node: Ghost(*cur),
                            },
                        );
                    }
                    x = c;
                    proof {
                        cur = cn;
                    }
                },
            }
        }
    }

    /// The position holding the next larger key of the tree, if any.
    pub(crate) fn successor(&self) -> (r: Option<Self>)
        ensures
            r is Some <==> has_key_above(self.tree_map(), self.node@.key),
            r matches Some(p) ==> p.root_t == self.root_t && p.wf() && is_next_key(
                self.tree_map(),
                self.node@.key,
                p.node@.key,
            ) && self.tree_map()[p.node@.key] == p.node@.value,
    {
        proof {
            use_type_invariant(self);
        }
        match next_slot(self.arena, self.root, Ghost(self.root_t@), self.key()) {
            None => None,
            Some((x, n)) => Some(
                ARef { arena: self.arena, root: self.root, idx: x, root_t: Ghost(self.root_t@), node: n },
            ),
        }
    }

    /// The position holding the next smaller key of the tree, if any.
    pub(crate) fn predecessor(&self) -> (r: Option<Self>)
        ensures
            r is Some <==> has_key_below(self.tree_map(), self.node@.key),
            r matches Some(p) ==> p.root_t == self.root_t && p.wf() && is_prev_key(
                self.tree_map(),
                self.node@.key,
                p.node@.key,
            ) && self.tree_map()[p.node@.key] == p.node@.value,
    {
        proof {
            use_type_invariant(self);
        }
        match prev_slot(self.arena, self.root, Ghost(self.root_t@), self.key()) {
            None => None,
            Some((x, n)) => Some(
                ARef { arena: self.arena, root: self.root, idx: x, root_t: Ghost(self.root_t@), node: n },
            ),
        }
    }

    /// Height of the subtree below this position.
    pub(crate) fn subtree_height(&self) -> (h: usize)
        requires
            size_of(self.root_t@) <= usize::MAX,
        ensures
            h == height_of(Some(Box::new(self.node@))),
    {
        proof {
            use_type_invariant(self);
            lemma_subtree_facts(self.node@, self.root_t@);
        }
        height_slot(self.arena, Some(self.idx), Ghost(Some(Box::new(self.node@))))
    }
}

/// A binary search tree whose nodes sit in an arena; `shape` is the owned-node model that the
/// arena holds at the root slot.
pub struct ArenaTree<K: TreeKey, V, A: Shape<K, V>> {
    pub(crate) arena: Arena<K, V, A>,
    pub(crate) root: Option<usize>,
    pub(crate) len: usize,
    pub(crate) shape: Ghost<Option<Box<Node<K, V, A>>>>,
}

impl<K: TreeKey, V, A: Shape<K, V>> View for ArenaTree<K, V, A> {
    type V = Map<K, V>;

    open spec fn view(&self) -> Map<K, V> {
        map_of(self.link())
    }
}

impl<K: TreeKey, V, A: Shape<K, V>> ArenaTree<K, V, A> {
    /// The arena keeps its free list, holds the shape at the root slot, and the shape is an
    /// ordered tree of `len` nodes that keeps the balance rule of its kind.
    pub open(crate) spec fn wf(&self) -> bool {
        &&& self.arena.ok()
        &&& holds(self.arena.nodes@, self.root, self.shape@)
        &&& ordered(self.shape@)
        &&& self.len == size_of(self.shape@)
        &&& A::shape_ok(self.shape@)
    }

    /// The owned-node model of the tree.
    pub open(crate) spec fn link(&self) -> Option<Box<Node<K, V, A>>> {
        self.shape@
    }

    /// What the invariant guarantees of any tree.
    pub(crate) proof fn lemma_inv(&self)
        requires
            self.wf(),
        ensures
            ordered(self.link()),
            A::shape_ok(self.link()),
            self@.dom().finite(),
            self@.len() == size_of(self.link()),
            size_of(self.link()) <= usize::MAX,
            seq_of(self.link()).len() == self@.len(),
    {
        lemma_map_finite_size(self.shape@);
    }

    /// An empty tree with an empty arena.
    pub(crate) fn new() -> (r: Self)
        ensures
            r.wf(),
            r@ == Map::<K, V>::empty(),
            r.link() is None,
    {
        proof {
            A::lemma_empty_shape();
        }
        ArenaTree { arena: Arena::new(), root: None, len: 0, shape: Ghost(None) }
    }

    /// Number of entries.
    pub(crate) fn len(&self) -> (r: usize)
        requires
            self.wf(),
        ensures
            r == self@.len(),
    {
        proof {
            self.lemma_inv();
        }
        self.len
    }

    /// Whether the tree holds no entry.
    pub(crate) fn is_empty(&self) -> (r: bool)
        requires
            self.wf(),
        ensures
            r == (self@.len() == 0),
    {
        proof {
            self.lemma_inv();
        }
        self.len == 0
    }

    /// Removes every entry, and the arena with its slots.
    pub(crate) fn clear(&mut self)
        ensures
            final(self).wf(),
            final(self)@ == Map::<K, V>::empty(),
            final(self).link() is None,
    {
        *self = ArenaTree::new();
    }

    /// Moves the whole tree out of the arena into owned nodes; the arena keeps its slots, all
    /// free, and the tree is left empty.
    pub(crate) fn take_all(&mut self) -> (r: BinTree<K, V, A>)
        requires
            old(self).wf(),
        ensures
            final(self).wf(),
            final(self).link() is None,
            r.wf(),
            r.link() == old(self).link(),
    {
        let root = self.root;
        let t = self.arena.take_tree(root, Ghost(self.shape@));
        let len = self.len;
        self.root = None;
        self.len = 0;
        self.shape = Ghost(None);
        proof {
            A::lemma_empty_shape();
        }
        BinTree { root: t, len }
    }

    /// Stores the owned tree `t` in the arena of an empty tree, reusing free slots first.
    pub(crate) fn put_all(&mut self, t: BinTree<K, V, A>)
        requires
            old(self).wf(),
            old(self).link() is None,
            t.wf(),
        ensures
            final(self).wf(),
            final(self).link() == t.link(),
    {
        let BinTree { root, len } = t;
        let ghost shape = root;
        let i = self.arena.put_tree(root);
        self.root = i;
        self.len = len;
        self.shape = Ghost(shape);
    }

    /// The position of `key`, if present.
    pub(crate) fn cursor<'a>(&'a self, key: &K) -> (r: Option<ARef<'a, K, V, A>>)
        requires
            self.wf(),
        ensures
            r is Some <==> self@.dom().contains(*key),
            r matches Some(p) ==> p.wf() && p.tree_map() == self@ && p.root_t@ == self.link()
                && p.node@.key == *key && p.node@.value == self@[*key],
    {
        match find_slot(&self.arena, self.root, Ghost(self.shape@), key) {
            None => None,
            Some((x, n)) => Some(ARef::at(&self.arena, self.root, x, Ghost(self.shape@), n)),
        }
    }

    /// Whether `key` is present.
    pub(crate) fn contains_key(&self, key: &K) -> (r: bool)
        requires
            self.wf(),
        ensures
            r == self@.dom().contains(*key),
    {
        find_slot(&self.arena, self.root, Ghost(self.shape@), key).is_some()
    }

    /// The position of the smallest key, if the tree is not empty.
    pub(crate) fn min_cursor<'a>(&'a self) -> (r: Option<ARef<'a, K, V, A>>)
        requires
            self.wf(),
        ensures
            r is Some <==> self@.len() > 0,
            r matches Some(p) ==> p.wf() && p.tree_map() == self@ && p.root_t@ == self.link()
                && is_min_key(self@, p.node@.key) && p.node@.value == self@[p.node@.key],
    {
        proof {
            self.lemma_inv();
        }
        match min_slot(&self.arena, self.root, Ghost(self.shape@)) {
            None => None,
            Some((x, n)) => Some(ARef::at(&self.arena, self.root, x, Ghost(self.shape@), n)),
        }
    }

    /// The position of the largest key, if the tree is not empty.
    pub(crate) fn max_cursor<'a>(&'a self) -> (r: Option<ARef<'a, K, V, A>>)
        requires
            self.wf(),
        ensures
            r is Some <==> self@.len() > 0,
            r matches Some(p) ==> p.wf() && p.tree_map() == self@ && p.root_t@ == self.link()
                && is_max_key(self@, p.node@.key) && p.node@.value == self@[p.node@.key],
    {
        proof {
            self.lemma_inv();
        }
        match max_slot(&self.arena, self.root, Ghost(self.shape@)) {
            None => None,
            Some((x, n)) => Some(ARef::at(&self.arena, self.root, x, Ghost(self.shape@), n)),
        }
    }

    /// The position of the root node, if the tree is not empty.
    pub(crate) fn root_ref<'a>(&'a self) -> (r: Option<ARef<'a, K, V, A>>)
        requires
            self.wf(),
        ensures
            r is Some <==> self@.len() > 0,
            r matches Some(p) ==> p.wf() && p.tree_map() == self@ && p.root_t@ == self.link()
                && self.link() == Some(Box::new(p.node@)),
    {
        proof {
            self.lemma_inv();
        }
        match self.root {
            None => None,
            Some(x) => {
                let ghost n = *self.shape@->0;
                proof {
                    assert(Box::new(n) == self.shape@->0);
                    assert(is_subtree(n, self.shape@));
                }
                Some(ARef::at(&self.arena, self.root, x, Ghost(self.shape@), Ghost(n)))
            },
        }
    }

    /// Number of nodes on the longest root-to-leaf path.
    pub(crate) fn height(&self) -> (r: usize)
        requires
            self.wf(),
        ensures
            r == height_of(self.link()),
    {
        proof {
            self.lemma_inv();
        }
        height_slot(&self.arena, self.root, Ghost(self.shape@))
    }

    /// Height of the subtree below a position of this tree.
    pub(crate) fn node_height(&self, p: &ARef<K, V, A>) -> (r: usize)
        requires
            self.wf(),
            p.root_t@ == self.link(),
        ensures
            r == height_of(Some(Box::new(p.node@))),
    {
        proof {
            self.lemma_inv();
        }
        p.subtree_height()
    }

    /// Clones of all entries, in increasing key order.
    pub(crate) fn entries(&self) -> (r: Vec<(K, V)>) where K: Clone, V: Clone
        requires
            self.wf(),
        ensures
            r@.len() == seq_of(self.link()).len(),
            forall|i: int|
                0 <= i < r@.len() ==> cloned(seq_of(self.link())[i].0, #[trigger] r@[i].0)
                    && cloned(seq_of(self.link())[i].1, r@[i].1),
    {
        let mut out: Vec<(K, V)> = Vec::new();
        collect_slots(&self.arena, self.root, Ghost(self.shape@), &mut out);
        proof {
            assert forall|i: int| 0 <= i < out@.len() implies cloned(
                seq_of(self.link())[i].0,
                #[trigger] out@[i].0,
            ) && cloned(seq_of(self.link())[i].1, out@[i].1) by {
                assert(out@[0 + i] == out@[i]);
            }
        }
        out
    }
}

} // verus!


