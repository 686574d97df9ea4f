//! The B-tree of minimum degree `T`: every node but the root holds between `T - 1` and
//! `2T - 1` sorted keys, an internal node with `m` keys has `m + 1` children, and all leaves
//! lie at the same depth.
use vstd::prelude::*;

use crate::key::{KeyOrder, TreeKey};
use crate::trees::node::{entries_within, sorted_entries};

verus! {

/// A B-tree node: sorted keys with their values and, for an internal node, one child more than
/// keys.
pub struct BNode<K, V> {
    pub keys: Vec<K>,
    pub values: Vec<V>,
    pub children: Vec<BNode<K, V>>,
}

/// The entries of a leaf, key by key.
pub open spec fn zip_entries<K, V>(ks: Seq<K>, vs: Seq<V>) -> Seq<(K, V)> {
    Seq::new(ks.len(), |i: int| (ks[i], vs[i]))
}

/// The entries of the first `cs.len()` children, each followed by its separating entry.
pub open spec fn pairs_seq<K, V>(ks: Seq<K>, vs: Seq<V>, cs: Seq<BNode<K, V>>) -> Seq<(K, V)>
    decreases cs,
{
    if cs.len() == 0 {
        Seq::empty()
    } else {
        pairs_seq(ks, vs, cs.drop_last()) + bseq(cs.last()) + seq![
            (ks[cs.len() - 1], vs[cs.len() - 1]),
        ]
    }
}

/// The entries of a subtree in in-order.
pub open spec fn bseq<K, V>(n: BNode<K, V>) -> Seq<(K, V)>
    decreases n,
{
    if n.children@.len() == 0 {
        zip_entries(n.keys@, n.values@)
    } else {
        pairs_seq(n.keys@, n.values@, n.children@.drop_last()) + bseq(n.children@.last())
    }
}

/// The entries of an internal node with keys `ks`, values `vs` and children `cs`.
pub open spec fn binternal<K, V>(ks: Seq<K>, vs: Seq<V>, cs: Seq<BNode<K, V>>) -> Seq<(K, V)> {
    pairs_seq(ks, vs, cs.drop_last()) + bseq(cs.last())
}

/// Concatenating children splits their entry sequence.
pub proof fn lemma_pairs_concat<K, V>(
    ks: Seq<K>,
    vs: Seq<V>,
    cs1: Seq<BNode<K, V>>,
    cs2: Seq<BNode<K, V>>,
)
    requires
        ks.len() >= cs1.len() + cs2.len(),
        vs.len() >= cs1.len() + cs2.len(),
    ensures
        pairs_seq(ks, vs, cs1 + cs2) =~= pairs_seq(ks, vs, cs1) + pairs_seq(
            ks.skip(cs1.len() as int),
            vs.skip(cs1.len() as int),
            cs2,
        ),
    decreases cs2.len(),
{
    if cs2.len() == 0 {
        assert(cs1 + cs2 =~= cs1);
    } else {
        lemma_pairs_concat(ks, vs, cs1, cs2.drop_last());
        assert((cs1 + cs2).drop_last() =~= cs1 + cs2.drop_last());
        assert((cs1 + cs2).last() == cs2.last());
        let n1 = cs1.len() as int;
        assert(ks.skip(n1)[cs2.len() - 1] == ks[n1 + cs2.len() - 1]);
        assert(vs.skip(n1)[cs2.len() - 1] == vs[n1 + cs2.len() - 1]);
    }
}

/// The entry sequence of children reads only the keys and values paired with them.
pub proof fn lemma_pairs_prefix<K, V>(
    ks: Seq<K>,
    vs: Seq<V>,
    ks2: Seq<K>,
    vs2: Seq<V>,
    cs: Seq<BNode<K, V>>,
)
    requires
        forall|j: int| 0 <= j < cs.len() ==> ks[j] == ks2[j] && vs[j] == vs2[j],
    ensures
        pairs_seq(ks, vs, cs) == pairs_seq(ks2, vs2, cs),
    decreases cs.len(),
{
    if cs.len() > 0 {
        lemma_pairs_prefix(ks, vs, ks2, vs2, cs.drop_last());
    }
}

/// One child followed by its separating entry.
pub proof fn lemma_pairs_single<K, V>(ks: Seq<K>, vs: Seq<V>, c: BNode<K, V>)
    requires
        ks.len() >= 1,
        vs.len() >= 1,
    ensures
        pairs_seq(ks, vs, seq![c]) =~= bseq(c) + seq![(ks[0], vs[0])],
{
    assert(seq![c].drop_last() =~= Seq::<BNode<K, V>>::empty());
    assert(pairs_seq(ks, vs, Seq::<BNode<K, V>>::empty()) == Seq::<(K, V)>::empty());
    assert(seq![c].last() == c);
    assert(pairs_seq(ks, vs, seq![c]) == pairs_seq(ks, vs, seq![c].drop_last()) + bseq(c) + seq![(ks[0], vs[0])]);
}

/// The entries of an internal node around its child `i`.
pub proof fn lemma_binternal_at<K, V>(ks: Seq<K>, vs: Seq<V>, cs: Seq<BNode<K, V>>, i: int)
    requires
        0 <= i < cs.len(),
        cs.len() == ks.len() + 1,
        vs.len() == ks.len(),
    ensures
        i + 1 < cs.len() ==> binternal(ks, vs, cs) =~= pairs_seq(ks, vs, cs.take(i)) + bseq(cs[i])
            + seq![(ks[i], vs[i])] + binternal(ks.skip(i + 1), vs.skip(i + 1), cs.skip(i + 1)),
        i + 1 == cs.len() ==> binternal(ks, vs, cs) =~= pairs_seq(ks, vs, cs.take(i)) + bseq(cs[i]),
{
    let m = cs.len() - 1;
    if i == m {
        assert(cs.drop_last() =~= cs.take(i));
    } else {
        assert(cs.drop_last() =~= cs.take(i) + (seq![cs[i]] + cs.subrange(i + 1, m)));
        lemma_pairs_concat(ks, vs, cs.take(i), seq![cs[i]] + cs.subrange(i + 1, m));
        lemma_pairs_concat(ks.skip(i), vs.skip(i), seq![cs[i]], cs.subrange(i + 1, m));
        lemma_pairs_single(ks.skip(i), vs.skip(i), cs[i]);
        assert(ks.skip(i).skip(1) =~= ks.skip(i + 1));
        assert(vs.skip(i).skip(1) =~= vs.skip(i + 1));
        assert(cs.skip(i + 1).drop_last() =~= cs.subrange(i + 1, m));
        assert(cs.skip(i + 1).last() == cs.last());
    }
}

/// Number of edges from a node down to its leaves, along the first children.
pub open spec fn bdepth<K, V>(n: BNode<K, V>) -> nat
    decreases n,
{
    if n.children@.len() == 0 {
        0
    } else {
        1 + bdepth(n.children@[0])
    }
}

/// The structure of a subtree of minimum degree `t`: parallel keys and values, one child more
/// than keys in an internal node, every child holding between `t - 1` and `2t - 1` keys, and
/// all children of a node at the same depth.
pub open spec fn bshape<K, V>(n: BNode<K, V>, t: nat) -> bool
    decreases n,
{
    &&& n.keys@.len() == n.values@.len()
    &&& (n.children@.len() == 0 || n.children@.len() == n.keys@.len() + 1)
    &&& forall|i: int|
        0 <= i < n.children@.len() ==> {
            &&& bshape(#[trigger] n.children@[i], t)
            &&& t - 1 <= n.children@[i].keys@.len() <= 2 * t - 1
            &&& bdepth(n.children@[i]) == bdepth(n.children@[0])
        }
}

/// The map of an entry sequence whose keys are distinct.
pub open spec fn entries_map<K, V>(s: Seq<(K, V)>) -> Map<K, V> {
    Map::new(
        |k: K| exists|i: int| 0 <= i < s.len() && #[trigger] s[i].0 == k,
        |k: K| s[choose|i: int| 0 <= i < s.len() && #[trigger] s[i].0 == k].1,
    )
}

/// In a sorted entry sequence a key sits at one index only, and the map reads its value there.
pub proof fn lemma_entries_map_at<K: TreeKey, V>(s: Seq<(K, V)>, i: int)
    requires
        sorted_entries(s),
        0 <= i < s.len(),
    ensures
        entries_map(s).dom().contains(s[i].0),
        entries_map(s)[s[i].0] == s[i].1,
        forall|j: int| 0 <= j < s.len() && #[trigger] s[j].0 == s[i].0 ==> j == i,
{
    assert(entries_map(s).dom().contains(s[i].0));
    let j = choose|j: int| 0 <= j < s.len() && #[trigger] s[j].0 == s[i].0;
    assert forall|j: int| 0 <= j < s.len() && #[trigger] s[j].0 == s[i].0 implies j == i by {
        if j < i {
            assert(s[j].0.rank() < s[i].0.rank());
        } else if j > i {
            assert(s[i].0.rank() < s[j].0.rank());
        }
    }
}

/// The entries of the subtree are sorted and its structure holds.
pub open spec fn bvalid<K: TreeKey, V>(n: BNode<K, V>, t: nat) -> bool {
    bshape(n, t) && sorted_entries(bseq(n))
}

/// The entries of child `i` of an internal node form a slice of the node's entries, between
/// the node's entries `i - 1` and `i`.
pub proof fn lemma_child_slice<K, V>(n: BNode<K, V>, i: int) -> (off: int)
    requires
        n.keys@.len() == n.values@.len(),
        n.children@.len() == n.keys@.len() + 1,
        0 <= i < n.children@.len(),
    ensures
        0 <= off,
        off + bseq(n.children@[i]).len() <= bseq(n).len(),
        forall|j: int|
            0 <= j < bseq(n.children@[i]).len() ==> bseq(n)[off + j] == #[trigger] bseq(
                n.children@[i],
            )[j],
        i < n.keys@.len() ==> bseq(n)[off + bseq(n.children@[i]).len()] == (
            n.keys@[i],
            n.values@[i],
        ),
        i > 0 ==> off >= 1 && bseq(n)[off - 1] == (n.keys@[i - 1], n.values@[i - 1]),
        i < n.keys@.len() ==> off + bseq(n.children@[i]).len() < bseq(n).len(),
        i == n.keys@.len() ==> off + bseq(n.children@[i]).len() == bseq(n).len(),
        i == 0 ==> off == 0,
{
    let ks = n.keys@;
    let vs = n.values@;
    let cs = n.children@;
    lemma_binternal_at(ks, vs, cs, i);
    let pre = pairs_seq(ks, vs, cs.take(i));
    if i > 0 {
        assert(cs.take(i).last() == cs[i - 1]);
        assert(cs.take(i).len() == i);
        assert(pre == pairs_seq(ks, vs, cs.take(i).drop_last()) + bseq(cs.take(i).last()) + seq![
            (ks[i - 1], vs[i - 1]),
        ]);
        assert(pre[pre.len() - 1] == (ks[i - 1], vs[i - 1]));
    }
    pre.len() as int
}

/// Ranks around child `i` of an internal node with sorted entries: the child's entries are
/// sorted, rank above key `i - 1` and below key `i`.
pub proof fn lemma_child_bounds<K: TreeKey, V>(n: BNode<K, V>, i: int)
    requires
        n.keys@.len() == n.values@.len(),
        n.children@.len() == n.keys@.len() + 1,
        0 <= i < n.children@.len(),
        sorted_entries(bseq(n)),
    ensures
        sorted_entries(bseq(n.children@[i])),
        forall|j: int|
            0 <= j < bseq(n.children@[i]).len() ==> (i > 0 ==> n.keys@[i - 1].rank() < (
            #[trigger] bseq(n.children@[i])[j]).0.rank()) && (i < n.keys@.len() ==> bseq(
                n.children@[i],
            )[j].0.rank() < n.keys@[i].rank()),
        entries_within(entries_map(bseq(n.children@[i])), entries_map(bseq(n))),
{
    let off = lemma_child_slice(n, i);
    let c = bseq(n.children@[i]);
    let s = bseq(n);
    assert forall|a: int, b: int| 0 <= a < b < c.len() implies #[trigger] c[a].0.rank()
        < #[trigger] c[b].0.rank() by {
        assert(s[off + a] == c[a] && s[off + b] == c[b]);
    }
    assert forall|j: int| 0 <= j < c.len() implies (i > 0 ==> n.keys@[i - 1].rank() < (
    #[trigger] c[j]).0.rank()) && (i < n.keys@.len() ==> c[j].0.rank() < n.keys@[i].rank()) by {
        assert(s[off + j] == c[j]);
        if i > 0 {
            assert(s[off - 1].0.rank() < s[off + j].0.rank());
        }
        if i < n.keys@.len() {
            assert(s[off + j].0.rank() < s[off + c.len()].0.rank());
        }
    }
    assert forall|k: K| #[trigger] entries_map(c).dom().contains(k) implies entries_map(
        s,
    ).dom().contains(k) && entries_map(c)[k] == entries_map(s)[k] by {
        let j = choose|j: int| 0 <= j < c.len() && #[trigger] c[j].0 == k;
        lemma_entries_map_at(c, j);
        assert(s[off + j] == c[j]);
        lemma_entries_map_at(s, off + j);
    }
}

/// `sub` is the node `n` or a node below it.
pub open spec fn bsub<K, V>(sub: BNode<K, V>, n: BNode<K, V>) -> bool
    decreases n,
{
    sub == n || exists|i: int| 0 <= i < n.children@.len() && bsub(sub, #[trigger] n.children@[i])
}

/// The first position whose key does not rank below `key`, and whether it holds `key`.
pub fn find_slot<K: TreeKey>(keys: &Vec<K>, key: &K) -> (r: (usize, bool))
    ensures
        r.0 <= keys@.len(),
        forall|j: int| 0 <= j < r.0 ==> (#[trigger] keys@[j]).rank() < key.rank(),
        r.0 < keys@.len() ==> keys@[r.0 as int].rank() >= key.rank(),
        r.1 <==> (r.0 < keys@.len() && keys@[r.0 as int] == *key),
{
    let mut i: usize = 0;
    while i < keys.len()
        invariant
            i <= keys@.len(),
            forall|j: int| 0 <= j < i ==> (#[trigger] keys@[j]).rank() < key.rank(),
        decreases keys@.len() - i,
    {
        match keys[i].compare(key) {
            KeyOrder::Less => {
                i = i + 1;
            },
            KeyOrder::Equal => {
                return (i, true);
            },
            KeyOrder::Greater => {
                return (i, false);
            },
        }
    }
    (i, false)
}

/// A key that a search at an internal node does not find among the node's keys lies in the
/// map of the child at its slot exactly when it lies in the node's map.
pub proof fn lemma_descend<K: TreeKey, V>(n: BNode<K, V>, i: int, key: K)
    requires
        n.keys@.len() == n.values@.len(),
        n.children@.len() == n.keys@.len() + 1,
        0 <= i < n.children@.len(),
        sorted_entries(bseq(n)),
        forall|j: int| 0 <= j < i ==> (#[trigger] n.keys@[j]).rank() < key.rank(),
        i < n.keys@.len() ==> n.keys@[i].rank() >= key.rank() && n.keys@[i] != key,
    ensures
        entries_map(bseq(n)).dom().contains(key) <==> entries_map(bseq(n.children@[i])).dom().contains(key),
        entries_map(bseq(n.children@[i])).dom().contains(key) ==> entries_map(bseq(n))[key]
            == entries_map(bseq(n.children@[i]))[key],
{
    let off = lemma_child_slice(n, i);
    lemma_child_bounds(n, i);
    let s = bseq(n);
    let c = bseq(n.children@[i]);
    if entries_map(s).dom().contains(key) {
        let p = choose|p: int| 0 <= p < s.len() && #[trigger] s[p].0 == key;
        if p < off {
            assert(i > 0);
            assert(s[off - 1].0 == n.keys@[i - 1]);
            if p < off - 1 {
                assert(s[p].0.rank() < s[off - 1].0.rank());
            }
        } else if p >= off + c.len() {
            if p > off + c.len() {
                assert(s[off + c.len()].0.rank() < s[p].0.rank());
            }
        } else {
            assert(s[off + (p - off)] == c[p - off]);
            assert(c[p - off].0 == key);
        }
    }
}

/// A key found at position `i` of a node is in the node's map with the value at `i`.
pub proof fn lemma_key_in_node<K: TreeKey, V>(n: BNode<K, V>, i: int)
    requires
        n.keys@.len() == n.values@.len(),
        n.children@.len() == 0 || n.children@.len() == n.keys@.len() + 1,
        0 <= i < n.keys@.len(),
        sorted_entries(bseq(n)),
    ensures
        entries_map(bseq(n)).dom().contains(n.keys@[i]),
        entries_map(bseq(n))[n.keys@[i]] == n.values@[i],
{
    if n.children@.len() == 0 {
        assert(bseq(n)[i] == (n.keys@[i], n.values@[i]));
        lemma_entries_map_at(bseq(n), i);
    } else {
        let off = lemma_child_slice(n, i);
        lemma_entries_map_at(bseq(n), off + bseq(n.children@[i]).len());
    }
}

/// A leaf search that does not stop at `key` shows `key` is absent.
pub proof fn lemma_leaf_absent<K: TreeKey, V>(n: BNode<K, V>, i: int, key: K)
    requires
        n.keys@.len() == n.values@.len(),
        n.children@.len() == 0,
        0 <= i <= n.keys@.len(),
        sorted_entries(bseq(n)),
        forall|j: int| 0 <= j < i ==> (#[trigger] n.keys@[j]).rank() < key.rank(),
        i < n.keys@.len() ==> n.keys@[i].rank() >= key.rank() && n.keys@[i] != key,
    ensures
        !entries_map(bseq(n)).dom().contains(key),
{
    let s = bseq(n);
    if entries_map(s).dom().contains(key) {
        let p = choose|p: int| 0 <= p < s.len() && #[trigger] s[p].0 == key;
        assert(s[p].0 == n.keys@[p]);
        if p > i {
            assert(s[i].0 == n.keys@[i]);
            assert(s[i].0.rank() < s[p].0.rank());
        }
    }
}

} // verus!
