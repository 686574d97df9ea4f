//! Index-linked node storage for the `arena` variants of the binary trees: the nodes sit in a
//! `Vec<Option<ANode>>`, links are slot indices, and freed slots go to a free list from which
//! later allocations take them again. `holds` reads a slot, and the slots below it, as the
//! owned-node model that the tree contracts speak of.
use vstd::prelude::*;

use crate::trees::node::Node;

verus! {

/// A node in an arena slot: its entry, its balance data, and the slots of its children.
pub struct ANode<K, V, A> {
    pub key: K,
    pub value: V,
    pub aux: A,
    pub left: Option<usize>,
    pub right: Option<usize>,
}

/// The slots of an arena and its list of free slots.
pub struct Arena<K, V, A> {
    pub nodes: Vec<Option<ANode<K, V, A>>>,
    pub free: Vec<usize>,
}

/// The slots of an arena, as a sequence.
pub type Slots<K, V, A> = Seq<Option<ANode<K, V, A>>>;

/// The slot `i` (if any) and the slots below it read as the subtree `t`: each slot holds the
/// entry and balance data of the matching node, links to the slots of its children, and no
/// slot serves twice.
pub open spec fn holds<K, V, A>(s: Slots<K, V, A>, i: Option<usize>, t: Option<Box<Node<K, V, A>>>) -> bool
    decreases t,
{
    match t {
        None => i is None,
        Some(b) => match i {
            None => false,
            Some(x) => {
                &&& x < s.len()
                &&& s[x as int] is Some
                &&& s[x as int]->0.key == b.key
                &&& s[x as int]->0.value == b.value
                &&& s[x as int]->0.aux == b.aux
                &&& holds(s, s[x as int]->0.left, b.left)
                &&& holds(s, s[x as int]->0.right, b.right)
                &&& !foot(s, s[x as int]->0.left, b.left).contains(x)
                &&& !foot(s, s[x as int]->0.right, b.right).contains(x)
                &&& foot(s, s[x as int]->0.left, b.left).disjoint(
                    foot(s, s[x as int]->0.right, b.right),
                )
            },
        },
    }
}

/// The slots that `holds` reads for the subtree `t` at `i`.
pub open spec fn foot<K, V, A>(s: Slots<K, V, A>, i: Option<usize>, t: Option<Box<Node<K, V, A>>>) -> Set<
    usize,
>
    decreases t,
{
    match t {
        None => Set::empty(),
        Some(b) => match i {
            None => Set::empty(),
            Some(x) => if x < s.len() && s[x as int] is Some {
                set![x] + foot(s, s[x as int]->0.left, b.left) + foot(s, s[x as int]->0.right, b.right)
            } else {
                set![x]
            },
        },
    }
}

/// Every slot that `holds` reads is in range and occupied.
pub proof fn lemma_foot_live<K, V, A>(s: Slots<K, V, A>, i: Option<usize>, t: Option<Box<Node<K, V, A>>>)
    requires
        holds(s, i, t),
    ensures
        forall|j: usize| #[trigger] foot(s, i, t).contains(j) ==> j < s.len() && s[j as int] is Some,
        i matches Some(x) ==> foot(s, i, t).contains(x),
    decreases t,
{
    if let Some(b) = t {
        let x = i->0;
        let n = s[x as int]->0;
        lemma_foot_live(s, n.left, b.left);
        lemma_foot_live(s, n.right, b.right);
    }
}

/// What `holds` reads depends only on the slots it reads.
pub proof fn lemma_frame<K, V, A>(
    s1: Slots<K, V, A>,
    s2: Slots<K, V, A>,
    i: Option<usize>,
    t: Option<Box<Node<K, V, A>>>,
)
    requires
        holds(s1, i, t),
        forall|j: usize| #[trigger] foot(s1, i, t).contains(j) ==> j < s2.len() && s2[j as int] == s1[j as int],
    ensures
        holds(s2, i, t),
        foot(s2, i, t) == foot(s1, i, t),
    decreases t,
{
    if let Some(b) = t {
        let x = i->0;
        let n = s1[x as int]->0;
        lemma_foot_live(s1, i, t);
        assert(foot(s1, i, t).contains(x));
        assert(foot(s1, i, t) == set![x] + foot(s1, n.left, b.left) + foot(s1, n.right, b.right));
        assert forall|j: usize| #[trigger] foot(s1, n.left, b.left).contains(j) implies j < s2.len()
            && s2[j as int] == s1[j as int] by {
            assert(foot(s1, i, t).contains(j));
        }
        assert forall|j: usize| #[trigger] foot(s1, n.right, b.right).contains(j) implies j < s2.len()
            && s2[j as int] == s1[j as int] by {
            assert(foot(s1, i, t).contains(j));
        }
        lemma_frame(s1, s2, n.left, b.left);
        lemma_frame(s1, s2, n.right, b.right);
        assert(foot(s2, i, t) =~= foot(s1, i, t));
    }
}

/// The slots of `a` that are occupied and outside `used` are the same in `b`, and `b` has at
/// least as many slots.
pub open spec fn keeps<K, V, A>(a: Slots<K, V, A>, b: Slots<K, V, A>, used: Set<usize>) -> bool {
    &&& a.len() <= b.len()
    &&& forall|j: int| 0 <= j < a.len() && a[j] is Some && !used.contains(j as usize) ==> b[j] == a[j]
}

/// Each slot of `f` is in `used`, or was free or absent in `a`.
pub open spec fn fresh<K, V, A>(a: Slots<K, V, A>, f: Set<usize>, used: Set<usize>) -> bool {
    forall|j: usize| #[trigger] f.contains(j) ==> used.contains(j) || j >= a.len() || a[j as int] is None
}

/// A subtree whose slots are all occupied and outside `used` reads the same after a change
/// that keeps the slots outside `used`.
pub proof fn lemma_keeps_holds<K, V, A>(
    a: Slots<K, V, A>,
    b: Slots<K, V, A>,
    used: Set<usize>,
    i: Option<usize>,
    t: Option<Box<Node<K, V, A>>>,
)
    requires
        holds(a, i, t),
        keeps(a, b, used),
        foot(a, i, t).disjoint(used),
    ensures
        holds(b, i, t),
        foot(b, i, t) == foot(a, i, t),
{
    lemma_foot_live(a, i, t);
    assert forall|j: usize| #[trigger] foot(a, i, t).contains(j) implies j < b.len() && b[j as int]
        == a[j as int] by {
        assert(!used.contains(j));
    }
    lemma_frame(a, b, i, t);
}

/// Two changes in a row keep every occupied slot outside `u` when each keeps the slots outside
/// a part of `u`.
pub proof fn lemma_keeps_trans<K, V, A>(
    a: Slots<K, V, A>,
    b: Slots<K, V, A>,
    c: Slots<K, V, A>,
    u1: Set<usize>,
    u2: Set<usize>,
    u: Set<usize>,
)
    requires
        keeps(a, b, u1),
        keeps(b, c, u2),
        u1.subset_of(u),
        u2.subset_of(u),
    ensures
        keeps(a, c, u),
{
    assert forall|j: int| 0 <= j < a.len() && a[j] is Some && !u.contains(j as usize) implies c[j] == a[j] by {
        assert(!u1.contains(j as usize));
        assert(b[j] == a[j]);
        assert(!u2.contains(j as usize));
    }
}

/// A slot that is empty after a change that keeps the slots outside `u` was empty before, or
/// lies in `u`.
pub proof fn lemma_kept_fresh<K, V, A>(a: Slots<K, V, A>, b: Slots<K, V, A>, u: Set<usize>, x: usize)
    requires
        keeps(a, b, u),
        x >= b.len() || b[x as int] is None,
    ensures
        u.contains(x) || x >= a.len() || a[x as int] is None,
{
    if x < a.len() && a[x as int] is Some && !u.contains(x) {
        assert(b[x as int] == a[x as int]);
    }
}

/// One step down and back up a subtree at slot `x`: its node is taken out (`s0` to `s1`), the
/// child subtree with slots `uc` is rebuilt with slots `fc` (`s1` to `s2`), and the node is
/// rebuilt over that child and the untouched sibling with slots `fs` (`s2` to `s3`), in slots
/// `fr`. Then every occupied slot outside `u`, the slots of the whole subtree, stays, and the
/// new subtree's slots are in `u` or were free.
pub proof fn lemma_step_frame<K, V, A>(
    s0: Slots<K, V, A>,
    s1: Slots<K, V, A>,
    s2: Slots<K, V, A>,
    s3: Slots<K, V, A>,
    x: usize,
    u: Set<usize>,
    uc: Set<usize>,
    fc: Set<usize>,
    fs: Set<usize>,
    fr: Set<usize>,
)
    requires
        s0.len() <= usize::MAX,
        keeps(s0, s1, set![x]),
        u == set![x] + uc + fs,
        keeps(s1, s2, uc),
        fresh(s1, fc, uc),
        keeps(s2, s3, fc + fs),
        fresh(s2, fr, fc + fs),
    ensures
        keeps(s0, s3, u),
        fresh(s0, fr, u),
{
    lemma_keeps_trans(s0, s1, s2, set![x], uc, u);
    assert forall|j: int| 0 <= j < s0.len() && s0[j] is Some && !u.contains(j as usize) implies s3[j] == s0[j] by {
        assert(s1[j] == s0[j]);
        assert(s2[j] == s0[j]);
        assert(!uc.contains(j as usize));
        assert(!fs.contains(j as usize));
        if fc.contains(j as usize) {
            assert(uc.contains(j as usize) || j as usize >= s1.len() || s1[j as usize as int] is None);
        }
        assert(!(fc + fs).contains(j as usize));
    }
    assert forall|j: usize| #[trigger] fr.contains(j) implies u.contains(j) || j >= s0.len() || s0[j as int] is None by {
        if !(fc + fs).contains(j) {
            lemma_kept_fresh(s0, s2, u, j);
        } else if fc.contains(j) && !uc.contains(j) {
            lemma_kept_fresh(s0, s1, set![x], j);
        }
    }
}

impl<K, V, A> Arena<K, V, A> {
    /// Every free slot is in range and empty, and none is listed twice.
    pub open spec fn ok(&self) -> bool {
        &&& forall|j: int|
            0 <= j < self.free@.len() ==> #[trigger] self.free@[j] < self.nodes@.len()
                && self.nodes@[self.free@[j] as int] is None
        &&& forall|a: int, b: int|
            0 <= a < b < self.free@.len() ==> #[trigger] self.free@[a] != #[trigger] self.free@[b]
    }

    /// An arena without slots.
    pub fn new() -> (r: Self)
        ensures
            r.ok(),
            r.nodes@.len() == 0,
            r.free@.len() == 0,
    {
        Arena { nodes: Vec::new(), free: Vec::new() }
    }

    /// Stores `node` in a slot: the last free one when there is one, else a new slot at the
    /// end. Every other slot is left as it was.
    pub fn alloc_node(&mut self, node: ANode<K, V, A>) -> (i: usize)
        requires
            old(self).ok(),
        ensures
            final(self).ok(),
            i < final(self).nodes@.len(),
            final(self).nodes@[i as int] == Some(node),
            forall|j: int| 0 <= j < old(self).nodes@.len() && j != i ==> final(self).nodes@[j] == old(self).nodes@[j],
            old(self).free@.len() > 0 ==> i == old(self).free@.last() && final(self).nodes@.len()
                == old(self).nodes@.len() && final(self).free@ == old(self).free@.drop_last(),
            old(self).free@.len() == 0 ==> i == old(self).nodes@.len() && final(self).nodes@.len()
                == old(self).nodes@.len() + 1 && final(self).free@ == old(self).free@,
            i < old(self).nodes@.len() ==> old(self).nodes@[i as int] is None,
    {
        match self.free.pop() {
            Some(i) => {
                proof {
                    assert(old(self).free@[old(self).free@.len() - 1] == i);
                }
                self.nodes.set(i, Some(node));
                proof {
                    assert forall|j: int| 0 <= j < self.free@.len() implies #[trigger] self.free@[j]
                        < self.nodes@.len() && self.nodes@[self.free@[j] as int] is None by {
                        assert(self.free@[j] == old(self).free@[j]);
                        assert(old(self).free@[j] != old(self).free@[old(self).free@.len() - 1]);
                    }
                    assert forall|a: int, b: int| 0 <= a < b < self.free@.len() implies #[trigger] self.free@[a]
                        != #[trigger] self.free@[b] by {
                        assert(self.free@[a] == old(self).free@[a]);
                        assert(self.free@[b] == old(self).free@[b]);
                    }
                }
                i
            },
            None => {
                let i = self.nodes.len();
                self.nodes.push(Some(node));
                i
            },
        }
    }

    /// Takes the node out of slot `i`, which becomes empty and is listed as free.
    pub fn take_node(&mut self, i: usize) -> (n: ANode<K, V, A>)
        requires
            old(self).ok(),
            i < old(self).nodes@.len(),
            old(self).nodes@[i as int] is Some,
        ensures
            final(self).ok(),
            n == old(self).nodes@[i as int]->0,
            final(self).nodes@ == old(self).nodes@.update(i as int, None),
            final(self).free@ == old(self).free@.push(i),
    {
        let n = self.nodes[i].take().unwrap();
        self.free.push(i);
        proof {
            assert forall|j: int| 0 <= j < self.free@.len() implies #[trigger] self.free@[j]
                < self.nodes@.len() && self.nodes@[self.free@[j] as int] is None by {
                if j < old(self).free@.len() {
                    assert(self.free@[j] == old(self).free@[j]);
                }
            }
            assert forall|a: int, b: int| 0 <= a < b < self.free@.len() implies #[trigger] self.free@[a]
                != #[trigger] self.free@[b] by {
                if b == old(self).free@.len() {
                    assert(old(self).nodes@[old(self).free@[a] as int] is None);
                }
            }
        }
        n
    }

    /// The node in slot `i`.
    pub fn node(&self, i: usize) -> (r: &ANode<K, V, A>)
        requires
            i < self.nodes@.len(),
            self.nodes@[i as int] is Some,
        ensures
            *r == self.nodes@[i as int]->0,
    {
        self.nodes[i].as_ref().unwrap()
    }

    /// Stores a node over the subtrees at `l` and `r` in a fresh slot, and gives that slot. The
    /// subtrees keep their slots; every occupied slot is left as it was.
    pub fn link_node(
        &mut self,
        key: K,
        value: V,
        aux: A,
        l: Option<usize>,
        Ghost(lt): Ghost<Option<Box<Node<K, V, A>>>>,
        r: Option<usize>,
        Ghost(rt): Ghost<Option<Box<Node<K, V, A>>>>,
    ) -> (x: usize)
        requires
            old(self).ok(),
            holds(old(self).nodes@, l, lt),
            holds(old(self).nodes@, r, rt),
            foot(old(self).nodes@, l, lt).disjoint(foot(old(self).nodes@, r, rt)),
        ensures
            final(self).ok(),
            holds(final(self).nodes@, Some(x), Some(Box::new(Node { key, value, aux, left: lt, right: rt }))),
            foot(final(self).nodes@, Some(x), Some(Box::new(Node { key, value, aux, left: lt, right: rt })))
                == set![x] + foot(old(self).nodes@, l, lt) + foot(old(self).nodes@, r, rt),
            keeps(old(self).nodes@, final(self).nodes@, Set::empty()),
            x >= old(self).nodes@.len() || old(self).nodes@[x as int] is None,
    {
        let ghost s2 = self.nodes@;
        let x = self.alloc_node(ANode { key, value, aux, left: l, right: r });
        let ghost s3 = self.nodes@;
        proof {
            lemma_foot_live(s2, l, lt);
            lemma_foot_live(s2, r, rt);
            assert(!foot(s2, l, lt).contains(x));
            assert(!foot(s2, r, rt).contains(x));
            lemma_frame(s2, s3, l, lt);
            lemma_frame(s2, s3, r, rt);
            let tt = Some(Box::new(Node { key, value, aux, left: lt, right: rt }));
            assert(holds(s3, Some(x), tt));
            assert(foot(s3, Some(x), tt) =~= set![x] + foot(s2, l, lt) + foot(s2, r, rt));
        }
        x
    }

    /// Takes the node at the root slot `x` of the subtree `t` out of the arena; the slot becomes
    /// free, and the two subtrees below it stay where they are.
    pub fn unlink_node(&mut self, x: usize, Ghost(t): Ghost<Option<Box<Node<K, V, A>>>>) -> (n: ANode<
        K,
        V,
        A,
    >)
        requires
            old(self).ok(),
            holds(old(self).nodes@, Some(x), t),
        ensures
            final(self).ok(),
            t is Some,
            n == old(self).nodes@[x as int]->0,
            n.key == t->0.key,
            n.value == t->0.value,
            n.aux == t->0.aux,
            final(self).nodes@ == old(self).nodes@.update(x as int, None),
            holds(final(self).nodes@, n.left, t->0.left),
            holds(final(self).nodes@, n.right, t->0.right),
            foot(final(self).nodes@, n.left, t->0.left) == foot(old(self).nodes@, n.left, t->0.left),
            foot(final(self).nodes@, n.right, t->0.right) == foot(old(self).nodes@, n.right, t->0.right),
            foot(old(self).nodes@, Some(x), t) == set![x] + foot(old(self).nodes@, n.left, t->0.left) + foot(
                old(self).nodes@,
                n.right,
                t->0.right,
            ),
            foot(final(self).nodes@, n.left, t->0.left).disjoint(foot(final(self).nodes@, n.right, t->0.right)),
            !foot(final(self).nodes@, n.left, t->0.left).contains(x),
            !foot(final(self).nodes@, n.right, t->0.right).contains(x),
    {
        let ghost s0 = self.nodes@;
        let ghost b = t->0;
        proof {
            lemma_foot_live(s0, s0[x as int]->0.left, b.left);
            lemma_foot_live(s0, s0[x as int]->0.right, b.right);
        }
        let n = self.take_node(x);
        let ghost s1 = self.nodes@;
        proof {
            lemma_frame(s0, s1, n.left, b.left);
            lemma_frame(s0, s1, n.right, b.right);
        }
        n
    }

    /// Moves the subtree at `i` out of the arena into owned nodes; its slots become free.
    pub fn take_tree(&mut self, i: Option<usize>, Ghost(t): Ghost<Option<Box<Node<K, V, A>>>>) -> (r:
        Option<Box<Node<K, V, A>>>)
        requires
            old(self).ok(),
            holds(old(self).nodes@, i, t),
        ensures
            final(self).ok(),
            r == t,
            keeps(old(self).nodes@, final(self).nodes@, foot(old(self).nodes@, i, t)),
        decreases t,
    {
        match i {
            None => None,
            Some(x) => {
                let ghost s0 = self.nodes@;
                let ghost b = t->0;
                proof {
                    lemma_foot_live(s0, s0[x as int]->0.left, b.left);
                    lemma_foot_live(s0, s0[x as int]->0.right, b.right);
                }
                let n = self.take_node(x);
                let ghost s1 = self.nodes@;
                proof {
                    lemma_frame(s0, s1, n.left, b.left);
                    lemma_frame(s0, s1, n.right, b.right);
                }
                let l = self.take_tree(n.left, Ghost(b.left));
                let ghost s2 = self.nodes@;
                proof {
                    lemma_keeps_holds(s1, s2, foot(s1, n.left, b.left), n.right, b.right);
                }
                let r = self.take_tree(n.right, Ghost(b.right));
                let ghost s3 = self.nodes@;
                proof {
                    let used = foot(s0, i, t);
                    assert forall|j: int|
                        0 <= j < s0.len() && s0[j] is Some && !used.contains(j as usize) implies s3[j]
                        == s0[j] by {
                        assert(j != x);
                        assert(!foot(s1, n.left, b.left).contains(j as usize));
                        assert(!foot(s2, n.right, b.right).contains(j as usize));
                    }
                }
                Some(Box::new(Node { key: n.key, value: n.value, aux: n.aux, left: l, right: r }))
            },
        }
    }

    /// Stores the owned subtree `t` in the arena, reusing free slots first; gives the slot of
    /// its root. Occupied slots are left as they were.
    pub fn put_tree(&mut self, t: Option<Box<Node<K, V, A>>>) -> (i: Option<usize>)
        requires
            old(self).ok(),
        ensures
            final(self).ok(),
            holds(final(self).nodes@, i, t),
            keeps(old(self).nodes@, final(self).nodes@, Set::empty()),
            fresh(old(self).nodes@, foot(final(self).nodes@, i, t), Set::empty()),
        decreases t,
    {
        match t {
            None => None,
            Some(b) => {
                let ghost s0 = self.nodes@;
                let Node { key, value, aux, left, right } = *b;
                let ghost lt = left;
                let ghost rt = right;
                let l = self.put_tree(left);
                let ghost s1 = self.nodes@;
                let r = self.put_tree(right);
                let ghost s2 = self.nodes@;
                proof {
                    lemma_foot_live(s1, l, lt);
                    assert(foot(s1, l, lt).disjoint(Set::<usize>::empty()));
                    lemma_keeps_holds(s1, s2, Set::empty(), l, lt);
                    lemma_foot_live(s2, r, rt);
                    assert(foot(s2, l, lt).disjoint(foot(s2, r, rt))) by {
                        assert forall|j: usize| #[trigger] foot(s2, l, lt).contains(j) implies !foot(
                            s2,
                            r,
                            rt,
                        ).contains(j) by {
                            assert(foot(s1, l, lt).contains(j));
                        }
                    }
                }
                let x = self.alloc_node(ANode { key, value, aux, left: l, right: r });
                let ghost s3 = self.nodes@;
                proof {
                    lemma_foot_live(s2, l, lt);
                    lemma_foot_live(s2, r, rt);
                    assert(!foot(s2, l, lt).contains(x));
                    assert(!foot(s2, r, rt).contains(x));
                    lemma_frame(s2, s3, l, lt);
                    lemma_frame(s2, s3, r, rt);
                    let tt = Some(Box::new(Node { key, value, aux, left: lt, right: rt }));
                    assert(holds(s3, Some(x), tt));
                    assert(foot(s3, Some(x), tt) =~= set![x] + foot(s2, l, lt) + foot(s2, r, rt));
                    assert forall|j: usize| #[trigger] foot(s3, Some(x), tt).contains(j) implies j
                        >= s0.len() || s0[j as int] is None by {
                        if j != x && foot(s2, l, lt).contains(j) {
                            assert(foot(s1, l, lt).contains(j));
                        }
                    }
                }
                Some(x)
            },
        }
    }
}

} // verus!
