//! How the entry sequence of a B-tree node splits around one of its keys or children: the
//! facts behind splitting, merging and rotating nodes without changing their entries.
use vstd::prelude::*;

use crate::trees::b_tree::engine::{
    binternal, bseq, lemma_binternal_at, lemma_pairs_prefix, pairs_seq, zip_entries, BNode,
};

verus! {

/// The entries of a node with keys `ks`, values `vs` and children `cs` (none for a leaf).
pub open spec fn bparts<K, V>(ks: Seq<K>, vs: Seq<V>, cs: Seq<BNode<K, V>>) -> Seq<(K, V)> {
    if cs.len() == 0 {
        zip_entries(ks, vs)
    } else {
        binternal(ks, vs, cs)
    }
}

/// The entries of an internal node before its child `i`: the children and keys left of it.
pub open spec fn bleft<K, V>(ks: Seq<K>, vs: Seq<V>, cs: Seq<BNode<K, V>>, i: int) -> Seq<(K, V)> {
    if i <= 0 {
        Seq::empty()
    } else {
        bparts(ks.take(i - 1), vs.take(i - 1), cs.take(i)) + seq![(ks[i - 1], vs[i - 1])]
    }
}

/// The entries of an internal node after its child `i`: the keys and children right of it.
pub open spec fn bright<K, V>(ks: Seq<K>, vs: Seq<V>, cs: Seq<BNode<K, V>>, i: int) -> Seq<
    (K, V),
> {
    if i >= ks.len() {
        Seq::empty()
    } else {
        seq![(ks[i], vs[i])] + bparts(ks.skip(i + 1), vs.skip(i + 1), cs.skip(i + 1))
    }
}

/// The children left of a cut at key `i`: none for a leaf.
pub open spec fn cut_left<T>(cs: Seq<T>, i: int) -> Seq<T> {
    if cs.len() == 0 {
        cs
    } else {
        cs.take(i + 1)
    }
}

/// The children right of a cut at key `i`: none for a leaf.
pub open spec fn cut_right<T>(cs: Seq<T>, i: int) -> Seq<T> {
    if cs.len() == 0 {
        cs
    } else {
        cs.skip(i + 1)
    }
}

/// The parts of a node are well matched: one value per key, and a leaf or one child more than
/// keys.
pub open spec fn parts_ok<K, V>(ks: Seq<K>, vs: Seq<V>, cs: Seq<BNode<K, V>>) -> bool {
    ks.len() == vs.len() && (cs.len() == 0 || cs.len() == ks.len() + 1)
}

/// A node's entries are those of its parts.
pub proof fn lemma_bseq_parts<K, V>(n: BNode<K, V>)
    ensures
        bseq(n) == bparts(n.keys@, n.values@, n.children@),
{
}

/// Around child `i`, an internal node's entries are those left of it, the child's, and those
/// right of it.
pub proof fn lemma_child_at<K, V>(ks: Seq<K>, vs: Seq<V>, cs: Seq<BNode<K, V>>, i: int)
    requires
        ks.len() == vs.len(),
        cs.len() == ks.len() + 1,
        0 <= i < cs.len(),
    ensures
        bparts(ks, vs, cs) =~= bleft(ks, vs, cs, i) + bseq(cs[i]) + bright(ks, vs, cs, i),
{
    lemma_binternal_at(ks, vs, cs, i);
    let pre = pairs_seq(ks, vs, cs.take(i));
    if i == 0 {
        assert(cs.take(0) =~= Seq::<BNode<K, V>>::empty());
        assert(pre =~= Seq::<(K, V)>::empty());
    } else {
        let ci = cs.take(i);
        assert(ci.drop_last() =~= cs.take(i - 1));
        assert(ci.last() == cs[i - 1]);
        assert(pre == pairs_seq(ks, vs, ci.drop_last()) + bseq(ci.last()) + seq![
            (ks[i - 1], vs[i - 1]),
        ]);
        lemma_pairs_prefix(ks, vs, ks.take(i - 1), vs.take(i - 1), ci.drop_last());
        assert(bparts(ks.take(i - 1), vs.take(i - 1), ci) == pairs_seq(
            ks.take(i - 1),
            vs.take(i - 1),
            ci.drop_last(),
        ) + bseq(ci.last()));
    }
    if i < ks.len() {
        assert(cs.skip(i + 1).len() > 0);
    }
}

/// At key `i`, a node's entries are those of the node's left part, the entry at `i`, and
/// those of its right part.
pub proof fn lemma_cut<K, V>(ks: Seq<K>, vs: Seq<V>, cs: Seq<BNode<K, V>>, i: int)
    requires
        parts_ok(ks, vs, cs),
        0 <= i < ks.len(),
    ensures
        bparts(ks, vs, cs) =~= bparts(ks.take(i), vs.take(i), cut_left(cs, i)) + seq![
            (ks[i], vs[i]),
        ] + bparts(ks.skip(i + 1), vs.skip(i + 1), cut_right(cs, i)),
{
    if cs.len() == 0 {
        let l = zip_entries(ks.take(i), vs.take(i));
        let r = zip_entries(ks.skip(i + 1), vs.skip(i + 1));
        let s = zip_entries(ks, vs);
        assert forall|j: int| 0 <= j < s.len() implies #[trigger] s[j] == (l + seq![
            (ks[i], vs[i]),
        ] + r)[j] by {
            if j < i {
            } else if j == i {
            } else {
                assert(r[j - i - 1] == (ks[j], vs[j]));
            }
        }
    } else {
        lemma_child_at(ks, vs, cs, i);
        let ks1 = ks.take(i);
        let vs1 = vs.take(i);
        let cs1 = cs.take(i + 1);
        lemma_child_at(ks1, vs1, cs1, i);
        if i > 0 {
            assert(ks1.take(i - 1) =~= ks.take(i - 1));
            assert(vs1.take(i - 1) =~= vs.take(i - 1));
            assert(cs1.take(i) =~= cs.take(i));
        }
        assert(bleft(ks1, vs1, cs1, i) == bleft(ks, vs, cs, i));
        assert(bright(ks1, vs1, cs1, i) =~= Seq::<(K, V)>::empty());
    }
}

/// Around the adjacent children `i` and `i + 1`, an internal node's entries are those left of
/// child `i`, both children's with key `i` between them, and those right of child `i + 1`.
pub proof fn lemma_pair_at<K, V>(ks: Seq<K>, vs: Seq<V>, cs: Seq<BNode<K, V>>, i: int)
    requires
        ks.len() == vs.len(),
        cs.len() == ks.len() + 1,
        0 <= i < ks.len(),
    ensures
        bparts(ks, vs, cs) =~= bleft(ks, vs, cs, i) + bseq(cs[i]) + seq![(ks[i], vs[i])] + bseq(
            cs[i + 1],
        ) + bright(ks, vs, cs, i + 1),
{
    lemma_child_at(ks, vs, cs, i);
    let ks2 = ks.skip(i + 1);
    let vs2 = vs.skip(i + 1);
    let cs2 = cs.skip(i + 1);
    lemma_child_at(ks2, vs2, cs2, 0);
    assert(cs2[0] == cs[i + 1]);
    if i + 1 < ks.len() {
        assert(ks2.skip(1) =~= ks.skip(i + 2));
        assert(vs2.skip(1) =~= vs.skip(i + 2));
        assert(cs2.skip(1) =~= cs.skip(i + 2));
        assert(ks2[0] == ks[i + 1]);
        assert(vs2[0] == vs[i + 1]);
    }
    assert(bright(ks2, vs2, cs2, 0) == bright(ks, vs, cs, i + 1));
    assert(bleft(ks2, vs2, cs2, 0) =~= Seq::<(K, V)>::empty());
}

/// The entries of a node with one child and no key are those of the child.
pub proof fn lemma_single_child<K, V>(c: BNode<K, V>)
    ensures
        bparts(Seq::<K>::empty(), Seq::<V>::empty(), seq![c]) =~= bseq(c),
{
    let cs = seq![c];
    assert(cs.drop_last() =~= Seq::<BNode<K, V>>::empty());
    assert(pairs_seq(Seq::<K>::empty(), Seq::<V>::empty(), cs.drop_last()) =~= Seq::<
        (K, V),
    >::empty());
}

} // verus!
