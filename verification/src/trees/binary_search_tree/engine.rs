//! The unbalanced binary search tree.
use vstd::prelude::*;

use crate::key::{KeyOrder, TreeKey};
use crate::trees::bin_tree::BinTree;
use crate::trees::node::{
    is_min_key, lemma_map_facts, lemma_map_finite_size, map_of, ordered, size_of, Node,
};

verus! {

broadcast use vstd::map_lib::group_map_union;

/// The subtree that putting `key -> value` into `t` gives: a new leaf (with `fresh` beside it)
/// where the search ends, or the value replaced at an equal key.
pub open spec fn bst_put<K: TreeKey, V, A>(
    t: Option<Box<Node<K, V, A>>>,
    key: K,
    value: V,
    fresh: A,
) -> Option<Box<Node<K, V, A>>>
    decreases t,
{
    match t {
        None => Some(Box::new(Node { key, value, aux: fresh, left: None, right: None })),
        Some(n) => if key.rank() < n.key.rank() {
            Some(
                Box::new(
                    Node {
                        key: n.key,
                        value: n.value,
                        aux: n.aux,
                        left: bst_put(n.left, key, value, fresh),
                        right: n.right,
                    },
                ),
            )
        } else if key.rank() > n.key.rank() {
            Some(
                Box::new(
                    Node {
                        key: n.key,
                        value: n.value,
                        aux: n.aux,
                        left: n.left,
                        right: bst_put(n.right, key, value, fresh),
                    },
                ),
            )
        } else {
            Some(Box::new(Node { key: n.key, value, aux: n.aux, left: n.left, right: n.right }))
        },
    }
}

/// A non-empty subtree without its leftmost node, which gives way to its right subtree; and
/// that node's entry.
pub open spec fn bst_pop_min<K, V, A>(t: Box<Node<K, V, A>>) -> (Option<Box<Node<K, V, A>>>, K, V)
    decreases t,
{
    match t.left {
        None => (t.right, t.key, t.value),
        Some(l) => {
            let m = bst_pop_min(l);
            (
                Some(
                    Box::new(
                        Node { key: t.key, value: t.value, aux: t.aux, left: m.0, right: t.right },
                    ),
                ),
                m.1,
                m.2,
            )
        },
    }
}

/// The subtree that removing `key` from `t` gives: a node with at most one child gives way
/// to it; one with two children takes the entry of its successor, the leftmost node on its
/// right, which leaves its place there.
pub open spec fn bst_del<K: TreeKey, V, A>(t: Option<Box<Node<K, V, A>>>, key: K) -> Option<
    Box<Node<K, V, A>>,
>
    decreases t,
{
    match t {
        None => None,
        Some(n) => if key.rank() < n.key.rank() {
            Some(
                Box::new(
                    Node {
                        key: n.key,
                        value: n.value,
                        aux: n.aux,
                        left: bst_del(n.left, key),
                        right: n.right,
                    },
                ),
            )
        } else if key.rank() > n.key.rank() {
            Some(
                Box::new(
                    Node {
                        key: n.key,
                        value: n.value,
                        aux: n.aux,
                        left: n.left,
                        right: bst_del(n.right, key),
                    },
                ),
            )
        } else {
            match n.right {
                None => n.left,
                Some(rb) => match n.left {
                    None => Some(rb),
                    Some(lb) => {
                        let m = bst_pop_min(rb);
                        Some(Box::new(Node { key: m.1, value: m.2, aux: n.aux, left: Some(lb), right: m.0 }))
                    },
                },
            }
        },
    }
}

/// Adds `key -> value` to a subtree, replacing the value of an equal key in place.
pub fn insert_link<K: TreeKey, V, A>(
    t: &mut Option<Box<Node<K, V, A>>>,
    key: K,
    value: V,
    fresh: A,
) -> (r: Option<V>)
    requires
        ordered(*old(t)),
    ensures
        ordered(*final(t)),
        map_of(*final(t)) == map_of(*old(t)).insert(key, value),
        r == (if map_of(*old(t)).dom().contains(key) {
            Some(map_of(*old(t))[key])
        } else {
            None::<V>
        }),
        size_of(*final(t)) == size_of(*old(t)) + (if r is Some {
            0int
        } else {
            1int
        }),
        *final(t) == bst_put(*old(t), key, value, fresh),
    decreases *old(t),
{
    match t {
        None => {
            *t = Some(Box::new(Node { key, value, aux: fresh, left: None, right: None }));
            None
        },
        Some(n) => {
            proof {
                lemma_map_facts(*n);
            }
            match key.compare(&n.key) {
                KeyOrder::Equal => {
                    let mut v = value;
                    std::mem::swap(&mut n.value, &mut v);
                    Some(v)
                },
                KeyOrder::Less => {
                    let r = insert_link(&mut n.left, key, value, fresh);
                    r
                },
                KeyOrder::Greater => {
                    let r = insert_link(&mut n.right, key, value, fresh);
                    r
                },
            }
        },
    }
}

/// Removes the entry with the smallest key of a non-empty subtree; returns the remaining
/// subtree and the removed entry.
pub fn remove_min_link<K: TreeKey, V, A>(t: Box<Node<K, V, A>>) -> (r: (
    Option<Box<Node<K, V, A>>>,
    K,
    V,
))
    requires
        ordered(Some(t)),
    ensures
        ordered(r.0),
        is_min_key(map_of(Some(t)), r.1),
        map_of(Some(t))[r.1] == r.2,
        map_of(r.0) == map_of(Some(t)).remove(r.1),
        size_of(r.0) + 1 == size_of(Some(t)),
        r == bst_pop_min(t),
    decreases t,
{
    proof {
        lemma_map_facts(t);
    }
    let mut n = t;
    match n.left {
        None => {
            proof {
                assert(map_of(n.right) =~= map_of(Some(t)).remove(n.key));
                assert(size_of(Some(t)) == size_of(t.left) + size_of(t.right) + 1);
                assert(size_of(t.left) == 0);
            }
            (n.right, n.key, n.value)
        },
        Some(l) => {
            let (rest, k, v) = remove_min_link(l);
            n.left = rest;
            proof {
                assert(map_of(Some(n)) =~= map_of(Some(t)).remove(k));
                assert(forall|j: K| #[trigger] map_of(n.left).dom().contains(j) ==> j.rank() < n.key.rank());
            }
            (Some(n), k, v)
        },
    }
}

/// Removes `key` from a subtree; returns the remaining subtree and the removed value.
pub fn remove_link<K: TreeKey, V, A>(t: Option<Box<Node<K, V, A>>>, key: &K) -> (r: (
    Option<Box<Node<K, V, A>>>,
    Option<V>,
))
    requires
        ordered(t),
    ensures
        ordered(r.0),
        map_of(r.0) == map_of(t).remove(*key),
        r.1 == (if map_of(t).dom().contains(*key) {
            Some(map_of(t)[*key])
        } else {
            None::<V>
        }),
        size_of(r.0) + (if r.1 is Some {
            1int
        } else {
            0int
        }) == size_of(t),
        r.0 == bst_del(t, *key),
    decreases t,
{
    match t {
        None => {
            proof {
                assert(map_of(t) =~= map_of(t).remove(*key));
            }
            (None, None)
        },
        Some(b) => {
            proof {
                lemma_map_facts(b);
            }
            let mut n = b;
            match key.compare(&n.key) {
                KeyOrder::Less => {
                    let (l, r) = remove_link(n.left, key);
                    n.left = l;
                    proof {
                        assert(map_of(Some(n)) =~= map_of(t).remove(*key));
                    }
                    (Some(n), r)
                },
                KeyOrder::Greater => {
                    let (rt, r) = remove_link(n.right, key);
                    n.right = rt;
                    proof {
                        assert(map_of(Some(n)) =~= map_of(t).remove(*key));
                    }
                    (Some(n), r)
                },
                KeyOrder::Equal => {
                    let Node { key: k, value: v, aux, left, right } = *n;
                    proof {
                        assert(size_of(t) == size_of(left) + size_of(right) + 1);
                    }
                    let rest = match right {
                        None => left,
                        Some(rb) => match left {
                            None => Some(rb),
                            Some(lb) => {
                                let (rt, sk, sv) = remove_min_link(rb);
                                proof {
                                    assert(forall|j: K| #[trigger] map_of(Some(lb)).dom().contains(j) ==> j.rank() < sk.rank());
                                    assert forall|j: K| #[trigger] map_of(rt).dom().contains(j) implies j.rank() > sk.rank() by {
                                        if j.rank() == sk.rank() {
                                            K::lemma_rank_injective(j, sk);
                                        }
                                    }
                                }
                                let nb = Box::new(Node { key: sk, value: sv, aux, left: Some(lb), right: rt });
                                proof {
                                    assert(size_of(Some(nb)) == size_of(Some(lb)) + size_of(rt) + 1);
                                }
                                Some(nb)
                            },
                        },
                    };
                    proof {
                        assert(map_of(rest) =~= map_of(t).remove(*key));
                        assert(ordered(rest));
                        assert(size_of(rest) + 1 == size_of(t));
                    }
                    (rest, Some(v))
                },
            }
        },
    }
}

impl<K: TreeKey, V> BinTree<K, V, ()> {
    /// Adds `key -> value` as a new leaf, or replaces the value of an equal key; returns the
    /// value it replaced.
    pub fn bst_insert(&mut self, key: K, value: V) -> (r: Option<V>)
        requires
            old(self).wf(),
            old(self)@.len() < usize::MAX,
        ensures
            final(self).wf(),
            final(self).link() == bst_put(old(self).link(), key, value, ()),
            final(self)@ == old(self)@.insert(key, value),
            r == (if old(self)@.dom().contains(key) {
                Some(old(self)@[key])
            } else {
                None::<V>
            }),
    {
        proof {
            self.lemma_inv();
        }
        let r = insert_link(&mut self.root, key, value, ());
        if r.is_none() {
            self.len = self.len + 1;
        }
        r
    }

    /// Removes `key`; returns its value if it was present.
    pub fn bst_remove(&mut self, key: &K) -> (r: Option<V>)
        requires
            old(self).wf(),
        ensures
            final(self).wf(),
            final(self).link() == bst_del(old(self).link(), *key),
            final(self)@ == old(self)@.remove(*key),
            r == (if old(self)@.dom().contains(*key) {
                Some(old(self)@[*key])
            } else {
                None::<V>
            }),
    {
        proof {
            self.lemma_inv();
        }
        let root = self.root.take();
        let (rest, r) = remove_link(root, key);
        self.root = rest;
        if r.is_some() {
            self.len = self.len - 1;
        }
        r
    }
}

} // verus!
