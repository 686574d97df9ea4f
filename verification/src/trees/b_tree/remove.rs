//! Removal from a B-tree: the entry leaves its leaf, or an internal entry gives way to its
//! predecessor; on the way back up, a child left with too few keys borrows a key from a
//! sibling or is merged with one.
use vstd::prelude::*;

use crate::key::TreeKey;
use crate::trees::b_tree::engine::{
    bdepth, bseq, bshape, bvalid, entries_map, find_slot, lemma_child_bounds, lemma_descend,
    lemma_entries_map_at, lemma_leaf_absent, BNode,
};
use crate::trees::b_tree::insert::{degree_ok, lemma_expand_entries, lemma_replace_child, replace_at};
use crate::trees::b_tree::layout::{
    bleft, bparts, bright, cut_left, cut_right, lemma_bseq_parts, lemma_child_at, lemma_cut,
    lemma_pair_at, lemma_single_child,
};
use crate::trees::b_tree::sorted::lemma_sorted_remove;
use crate::trees::node::sorted_entries;

verus! {

/// The children `cs` of a node are B-tree subtrees of depth `d` holding between `t - 1` and
/// `2t - 1` keys, except child `loose`, which may hold one key fewer.
pub open spec fn kids_ok<K, V>(cs: Seq<BNode<K, V>>, t: nat, d: nat, loose: int) -> bool {
    forall|j: int|
        0 <= j < cs.len() ==> {
            &&& bshape(#[trigger] cs[j], t)
            &&& (if j == loose {
                t - 2
            } else {
                t - 1
            }) <= cs[j].keys@.len() <= 2 * t - 1
            &&& bdepth(cs[j]) == d
        }
}

/// `s2` is `s` after taking out `key`: it was there and `r` holds its value, or it was not
/// there and nothing changed.
pub open spec fn take_result<K: TreeKey, V>(
    s: Seq<(K, V)>,
    s2: Seq<(K, V)>,
    key: K,
    r: Option<V>,
) -> bool {
    match r {
        Some(v) => exists|p: int|
            0 <= p < s.len() && #[trigger] s[p].0 == key && v == s[p].1 && s2 == s.remove(p),
        None => s2 == s && !entries_map(s).dom().contains(key),
    }
}

/// An internal node with well-shaped children is well shaped, one level above them.
proof fn lemma_shape_from_kids<K, V>(n: BNode<K, V>, t: nat, d: nat)
    requires
        n.keys@.len() == n.values@.len(),
        n.children@.len() == n.keys@.len() + 1,
        kids_ok(n.children@, t, d, -1),
    ensures
        bshape(n, t),
        bdepth(n) == d + 1,
{
    assert(bdepth(n.children@[0]) == d);
}

/// The children of a well-shaped internal node are well shaped, one level below it.
proof fn lemma_kids_from_shape<K, V>(n: BNode<K, V>, t: nat)
    requires
        bshape(n, t),
        n.children@.len() > 0,
    ensures
        n.children@.len() == n.keys@.len() + 1,
        bdepth(n) == bdepth(n.children@[0]) + 1,
        kids_ok(n.children@, t, bdepth(n.children@[0]), -1),
{
}

/// Two subtrees of one depth are both leaves or both internal.
proof fn lemma_same_depth_kind<K, V>(a: BNode<K, V>, b: BNode<K, V>, t: nat)
    requires
        bshape(a, t),
        bshape(b, t),
        bdepth(a) == bdepth(b),
    ensures
        (a.children@.len() == 0) == (b.children@.len() == 0),
        a.children@.len() > 0 ==> bdepth(a.children@[0]) == bdepth(b.children@[0]),
{
}

/// The entries of a node made of `a`, the entry `m` and `b`, side by side.
proof fn lemma_join_entries<K, V>(
    a: BNode<K, V>,
    m: (K, V),
    b: BNode<K, V>,
    ks: Seq<K>,
    vs: Seq<V>,
    cs: Seq<BNode<K, V>>,
)
    requires
        a.keys@.len() == a.values@.len(),
        b.keys@.len() == b.values@.len(),
        a.children@.len() == 0 && b.children@.len() == 0 || a.children@.len() == a.keys@.len() + 1
            && b.children@.len() == b.keys@.len() + 1,
        ks == a.keys@ + seq![m.0] + b.keys@,
        vs == a.values@ + seq![m.1] + b.values@,
        cs == a.children@ + b.children@,
    ensures
        bparts(ks, vs, cs) =~= bseq(a) + seq![m] + bseq(b),
{
    let i = a.keys@.len() as int;
    lemma_cut(ks, vs, cs, i);
    assert(ks.take(i) =~= a.keys@);
    assert(vs.take(i) =~= a.values@);
    assert(ks.skip(i + 1) =~= b.keys@);
    assert(vs.skip(i + 1) =~= b.values@);
    assert(cut_left(cs, i) =~= a.children@);
    assert(cut_right(cs, i) =~= b.children@);
    assert(ks[i] == m.0 && vs[i] == m.1);
}

/// Changing key `a` and the two children around it, so that together they hold the same
/// entries, keeps the node's entries.
proof fn lemma_swap_middle<K, V>(
    ks: Seq<K>,
    vs: Seq<V>,
    cs: Seq<BNode<K, V>>,
    ks2: Seq<K>,
    vs2: Seq<V>,
    cs2: Seq<BNode<K, V>>,
    a: int,
)
    requires
        ks.len() == vs.len(),
        cs.len() == ks.len() + 1,
        0 <= a < ks.len(),
        ks2.len() == ks.len(),
        vs2.len() == vs.len(),
        cs2.len() == cs.len(),
        forall|x: int| 0 <= x < ks.len() && x != a ==> ks2[x] == ks[x] && vs2[x] == vs[x],
        forall|y: int| 0 <= y < cs.len() && y != a && y != a + 1 ==> cs2[y] == cs[y],
        bseq(cs2[a]) + seq![(ks2[a], vs2[a])] + bseq(cs2[a + 1]) == bseq(cs[a]) + seq![
            (ks[a], vs[a]),
        ] + bseq(cs[a + 1]),
    ensures
        bparts(ks2, vs2, cs2) =~= bparts(ks, vs, cs),
{
    lemma_pair_at(ks, vs, cs, a);
    lemma_pair_at(ks2, vs2, cs2, a);
    if a > 0 {
        assert(ks2.take(a - 1) =~= ks.take(a - 1));
        assert(vs2.take(a - 1) =~= vs.take(a - 1));
        assert(cs2.take(a) =~= cs.take(a));
    }
    assert(bleft(ks2, vs2, cs2, a) == bleft(ks, vs, cs, a));
    if a + 1 < ks.len() {
        assert(ks2.skip(a + 2) =~= ks.skip(a + 2));
        assert(vs2.skip(a + 2) =~= vs.skip(a + 2));
        assert(cs2.skip(a + 2) =~= cs.skip(a + 2));
    }
    assert(bright(ks2, vs2, cs2, a + 1) == bright(ks, vs, cs, a + 1));
    let mid = bseq(cs[a]) + seq![(ks[a], vs[a])] + bseq(cs[a + 1]);
    let l = bleft(ks, vs, cs, a);
    let r = bright(ks, vs, cs, a + 1);
    assert(bparts(ks, vs, cs) =~= l + mid + r);
    assert(bparts(ks2, vs2, cs2) =~= l + mid + r);
}

/// Children `a` and `a + 1` replaced by well-shaped nodes of the same depth and with enough
/// keys leave all children well shaped.
proof fn lemma_two_kids<K, V>(
    cs: Seq<BNode<K, V>>,
    a: int,
    x: BNode<K, V>,
    y: BNode<K, V>,
    t: nat,
    d: nat,
    loose: int,
)
    requires
        0 <= a,
        a + 1 < cs.len(),
        loose == a || loose == a + 1,
        kids_ok(cs, t, d, loose),
        bshape(x, t),
        bshape(y, t),
        bdepth(x) == d,
        bdepth(y) == d,
        t - 1 <= x.keys@.len() <= 2 * t - 1,
        t - 1 <= y.keys@.len() <= 2 * t - 1,
    ensures
        kids_ok(cs.update(a, x).update(a + 1, y), t, d, -1),
{
    let cs2 = cs.update(a, x).update(a + 1, y);
    assert forall|j: int| 0 <= j < cs2.len() implies {
        &&& bshape(#[trigger] cs2[j], t)
        &&& t - 1 <= cs2[j].keys@.len() <= 2 * t - 1
        &&& bdepth(cs2[j]) == d
    } by {
        if j != a && j != a + 1 {
            assert(cs2[j] == cs[j]);
        }
    }
}

/// The nodes after a key moves from the end of `lo` through the parent to the front of `co`.
proof fn lemma_rotate_right<K, V>(
    lo: BNode<K, V>,
    co: BNode<K, V>,
    l2: BNode<K, V>,
    c2: BNode<K, V>,
    e: (K, V),
    sep: (K, V),
    t: nat,
)
    requires
        t >= 2,
        bshape(lo, t),
        bshape(co, t),
        bdepth(lo) == bdepth(co),
        lo.keys@.len() >= t,
        lo.keys@.len() <= 2 * t - 1,
        t - 2 <= co.keys@.len() < 2 * t - 1,
        l2.keys@ == lo.keys@.take(lo.keys@.len() - 1),
        l2.values@ == lo.values@.take(lo.keys@.len() - 1),
        l2.children@ == cut_left(lo.children@, lo.keys@.len() - 1),
        e == (lo.keys@.last(), lo.values@.last()),
        c2.keys@ == seq![sep.0] + co.keys@,
        c2.values@ == seq![sep.1] + co.values@,
        c2.children@ == (if lo.children@.len() > 0 {
            seq![lo.children@.last()] + co.children@
        } else {
            co.children@
        }),
    ensures
        bshape(l2, t),
        bshape(c2, t),
        bdepth(l2) == bdepth(lo),
        bdepth(c2) == bdepth(co),
        t - 1 <= l2.keys@.len() <= 2 * t - 1,
        t - 1 <= c2.keys@.len() <= 2 * t - 1,
        bseq(l2) + seq![e] + bseq(c2) =~= bseq(lo) + seq![sep] + bseq(co),
{
    lemma_same_depth_kind(lo, co, t);
    let ml = lo.keys@.len() as int;
    lemma_cut(lo.keys@, lo.values@, lo.children@, ml - 1);
    lemma_cut(c2.keys@, c2.values@, c2.children@, 0);
    assert(c2.keys@.skip(1) =~= co.keys@);
    assert(c2.values@.skip(1) =~= co.values@);
    assert(c2.keys@.take(0) =~= Seq::<K>::empty());
    assert(c2.values@.take(0) =~= Seq::<V>::empty());
    assert(lo.keys@.skip(ml) =~= Seq::<K>::empty());
    assert(lo.values@.skip(ml) =~= Seq::<V>::empty());
    if lo.children@.len() > 0 {
        let moved = lo.children@[ml];
        assert(cut_right(lo.children@, ml - 1) =~= seq![moved]);
        assert(cut_left(c2.children@, 0) =~= seq![moved]);
        assert(cut_right(c2.children@, 0) =~= co.children@);
        assert(bshape(moved, t));
        assert forall|j: int| 0 <= j < l2.children@.len() implies l2.children@[j]
            == lo.children@[j] by {}
        assert(l2.children@[0] == lo.children@[0]);
        assert forall|j: int| 0 < j < c2.children@.len() implies c2.children@[j]
            == co.children@[j - 1] by {}
        assert(c2.children@[0] == moved);
    } else {
        assert(cut_right(lo.children@, ml - 1) =~= Seq::<BNode<K, V>>::empty());
        assert(cut_left(c2.children@, 0) =~= Seq::<BNode<K, V>>::empty());
        assert(cut_right(c2.children@, 0) =~= co.children@);
    }
    lemma_bseq_parts(lo);
    lemma_bseq_parts(l2);
    lemma_bseq_parts(c2);
    lemma_bseq_parts(co);
    let x = bparts(lo.keys@.skip(ml), lo.values@.skip(ml), cut_right(lo.children@, ml - 1));
    assert(x == bparts(c2.keys@.take(0), c2.values@.take(0), cut_left(c2.children@, 0)));
    assert(bseq(lo) =~= bseq(l2) + seq![e] + x);
    assert(bseq(c2) =~= x + seq![sep] + bseq(co));
}

/// The nodes after a key moves from the front of `ro` through the parent to the end of `co`.
proof fn lemma_rotate_left<K, V>(
    co: BNode<K, V>,
    ro: BNode<K, V>,
    c2: BNode<K, V>,
    r2: BNode<K, V>,
    sep: (K, V),
    e: (K, V),
    t: nat,
)
    requires
        t >= 2,
        bshape(ro, t),
        bshape(co, t),
        bdepth(ro) == bdepth(co),
        ro.keys@.len() >= t,
        ro.keys@.len() <= 2 * t - 1,
        t - 2 <= co.keys@.len() < 2 * t - 1,
        r2.keys@ == ro.keys@.skip(1),
        r2.values@ == ro.values@.skip(1),
        r2.children@ == cut_right(ro.children@, 0),
        e == (ro.keys@[0], ro.values@[0]),
        c2.keys@ == co.keys@ + seq![sep.0],
        c2.values@ == co.values@ + seq![sep.1],
        c2.children@ == (if ro.children@.len() > 0 {
            co.children@ + seq![ro.children@[0]]
        } else {
            co.children@
        }),
    ensures
        bshape(r2, t),
        bshape(c2, t),
        bdepth(r2) == bdepth(ro),
        bdepth(c2) == bdepth(co),
        t - 1 <= r2.keys@.len() <= 2 * t - 1,
        t - 1 <= c2.keys@.len() <= 2 * t - 1,
        bseq(c2) + seq![e] + bseq(r2) =~= bseq(co) + seq![sep] + bseq(ro),
{
    lemma_same_depth_kind(ro, co, t);
    let mc = co.keys@.len() as int;
    lemma_cut(ro.keys@, ro.values@, ro.children@, 0);
    lemma_cut(c2.keys@, c2.values@, c2.children@, mc);
    assert(c2.keys@.take(mc) =~= co.keys@);
    assert(c2.values@.take(mc) =~= co.values@);
    assert(c2.keys@.skip(mc + 1) =~= Seq::<K>::empty());
    assert(c2.values@.skip(mc + 1) =~= Seq::<V>::empty());
    assert(ro.keys@.take(0) =~= Seq::<K>::empty());
    assert(ro.values@.take(0) =~= Seq::<V>::empty());
    if ro.children@.len() > 0 {
        let moved = ro.children@[0];
        assert(cut_left(ro.children@, 0) =~= seq![moved]);
        assert(cut_right(c2.children@, mc) =~= seq![moved]);
        assert(cut_left(c2.children@, mc) =~= co.children@);
        assert(bshape(moved, t));
        assert forall|j: int| 0 <= j < r2.children@.len() implies r2.children@[j]
            == ro.children@[j + 1] by {}
        assert(r2.children@[0] == ro.children@[1]);
        assert(bdepth(ro.children@[1]) == bdepth(ro.children@[0]));
        assert forall|j: int| 0 <= j < mc + 1 implies c2.children@[j] == co.children@[j] by {}
        assert(c2.children@[mc + 1] == moved);
        assert(c2.children@[0] == co.children@[0]);
    } else {
        assert(cut_left(ro.children@, 0) =~= Seq::<BNode<K, V>>::empty());
        assert(cut_right(c2.children@, mc) =~= Seq::<BNode<K, V>>::empty());
        assert(cut_left(c2.children@, mc) =~= co.children@);
    }
    lemma_bseq_parts(ro);
    lemma_bseq_parts(r2);
    lemma_bseq_parts(c2);
    lemma_bseq_parts(co);
    let x = bparts(ro.keys@.take(0), ro.values@.take(0), cut_left(ro.children@, 0));
    assert(x == bparts(c2.keys@.skip(mc + 1), c2.values@.skip(mc + 1), cut_right(c2.children@, mc)));
    assert(bseq(ro) =~= x + seq![e] + bseq(r2));
    assert(bseq(c2) =~= bseq(co) + seq![sep] + x);
}

/// Child `i` takes the separating key from its parent, the parent takes the last key of the
/// left sibling, and the left sibling's last child moves over to child `i`.
fn borrow_left<K, V>(n: BNode<K, V>, i: usize, Ghost(t): Ghost<nat>) -> (r: BNode<K, V>)
    requires
        t >= 2,
        n.keys@.len() == n.values@.len(),
        n.children@.len() == n.keys@.len() + 1,
        0 < i < n.children@.len(),
        kids_ok(n.children@, t, bdepth(n.children@[0]), i as int),
        n.children@[i - 1].keys@.len() >= t,
        n.children@[i as int].keys@.len() < 2 * t - 1,
    ensures
        r.keys@.len() == n.keys@.len(),
        r.values@.len() == r.keys@.len(),
        r.children@.len() == r.keys@.len() + 1,
        kids_ok(r.children@, t, bdepth(n.children@[0]), -1),
        bseq(r) == bseq(n),
{
    let ghost ks = n.keys@;
    let ghost vs = n.values@;
    let ghost cs = n.children@;
    let ghost d = bdepth(n.children@[0]);
    let ghost lo = cs[i - 1];
    let ghost co = cs[i as int];
    let BNode { mut keys, mut values, mut children } = n;
    let c = children.remove(i);
    let l = children.remove(i - 1);
    let BNode { keys: mut lk, values: mut lv, children: mut lc } = l;
    let BNode { keys: mut ck, values: mut cv, children: mut cc } = c;
    let last = lk.len() - 1;
    let lk_last = lk.remove(last);
    let lv_last = lv.remove(last);
    let sep_k = replace_at(&mut keys, i - 1, lk_last);
    let sep_v = replace_at(&mut values, i - 1, lv_last);
    ck.insert(0, sep_k);
    cv.insert(0, sep_v);
    if lc.len() > 0 {
        let moved = lc.remove(lc.len() - 1);
        cc.insert(0, moved);
    }
    let l2 = BNode { keys: lk, values: lv, children: lc };
    let c2 = BNode { keys: ck, values: cv, children: cc };
    children.insert(i - 1, l2);
    children.insert(i, c2);
    let res = BNode { keys, values, children };
    proof {
        assert(bshape(lo, t) && bshape(co, t));
        assert(l2.keys@ =~= lo.keys@.take(lo.keys@.len() - 1));
        assert(l2.values@ =~= lo.values@.take(lo.keys@.len() - 1));
        assert(l2.children@ =~= cut_left(lo.children@, lo.keys@.len() - 1));
        assert(c2.keys@ =~= seq![sep_k] + co.keys@);
        assert(c2.values@ =~= seq![sep_v] + co.values@);
        if lo.children@.len() > 0 {
            assert(c2.children@ =~= seq![lo.children@.last()] + co.children@);
        }
        lemma_rotate_right(lo, co, l2, c2, (lk_last, lv_last), (sep_k, sep_v), t);
        let ks2 = res.keys@;
        let vs2 = res.values@;
        let cs2 = res.children@;
        assert(cs2 =~= cs.update(i - 1, l2).update(i as int, c2));
        lemma_two_kids(cs, i - 1, l2, c2, t, d, i as int);
        lemma_swap_middle(ks, vs, cs, ks2, vs2, cs2, i - 1);
        assert(bseq(res) == bparts(ks2, vs2, cs2));
        assert(bseq(n) == bparts(ks, vs, cs));
    }
    res
}

/// Child `i` takes the separating key from its parent, the parent takes the first key of the
/// right sibling, and the right sibling's first child moves over to child `i`.
fn borrow_right<K, V>(n: BNode<K, V>, i: usize, Ghost(t): Ghost<nat>) -> (r: BNode<K, V>)
    requires
        t >= 2,
        n.keys@.len() == n.values@.len(),
        n.children@.len() == n.keys@.len() + 1,
        i + 1 < n.children@.len(),
        kids_ok(n.children@, t, bdepth(n.children@[0]), i as int),
        n.children@[i + 1].keys@.len() >= t,
        n.children@[i as int].keys@.len() < 2 * t - 1,
    ensures
        r.keys@.len() == n.keys@.len(),
        r.values@.len() == r.keys@.len(),
        r.children@.len() == r.keys@.len() + 1,
        kids_ok(r.children@, t, bdepth(n.children@[0]), -1),
        bseq(r) == bseq(n),
{
    let ghost ks = n.keys@;
    let ghost vs = n.values@;
    let ghost cs = n.children@;
    let ghost d = bdepth(n.children@[0]);
    let ghost ro = cs[i + 1];
    let ghost co = cs[i as int];
    let BNode { mut keys, mut values, mut children } = n;
    let nc = children.len();
    let rn = children.remove(i + 1);
    let c = children.remove(i);
    let BNode { keys: mut rk, values: mut rv, children: mut rc } = rn;
    let BNode { keys: mut ck, values: mut cv, children: mut cc } = c;
    let rk_first = rk.remove(0);
    let rv_first = rv.remove(0);
    let sep_k = replace_at(&mut keys, i, rk_first);
    let sep_v = replace_at(&mut values, i, rv_first);
    ck.push(sep_k);
    cv.push(sep_v);
    if rc.len() > 0 {
        let moved = rc.remove(0);
        cc.push(moved);
    }
    let c2 = BNode { keys: ck, values: cv, children: cc };
    let r2 = BNode { keys: rk, values: rv, children: rc };
    children.insert(i, c2);
    children.insert(i + 1, r2);
    let res = BNode { keys, values, children };
    proof {
        assert(bshape(ro, t) && bshape(co, t));
        assert(r2.keys@ =~= ro.keys@.skip(1));
        assert(r2.values@ =~= ro.values@.skip(1));
        assert(r2.children@ =~= cut_right(ro.children@, 0));
        assert(c2.keys@ =~= co.keys@ + seq![sep_k]);
        assert(c2.values@ =~= co.values@ + seq![sep_v]);
        if ro.children@.len() > 0 {
            assert(c2.children@ =~= co.children@ + seq![ro.children@[0]]);
        }
        lemma_rotate_left(co, ro, c2, r2, (sep_k, sep_v), (rk_first, rv_first), t);
        let ks2 = res.keys@;
        let vs2 = res.values@;
        let cs2 = res.children@;
        assert(cs2 =~= cs.update(i as int, c2).update(i + 1, r2));
        lemma_two_kids(cs, i as int, c2, r2, t, d, i as int);
        lemma_swap_middle(ks, vs, cs, ks2, vs2, cs2, i as int);
        assert(bseq(res) == bparts(ks2, vs2, cs2));
        assert(bseq(n) == bparts(ks, vs, cs));
    }
    res
}

/// Merges children `a` and `a + 1` with the key between them into one child at `a`.
fn merge_children<K, V>(n: BNode<K, V>, a: usize, Ghost(t): Ghost<nat>, Ghost(loose): Ghost<int>) -> (r:
    BNode<K, V>)
    requires
        t >= 2,
        n.keys@.len() == n.values@.len(),
        n.children@.len() == n.keys@.len() + 1,
        a + 1 < n.children@.len(),
        loose == a || loose == a + 1,
        kids_ok(n.children@, t, bdepth(n.children@[0]), loose),
        n.children@[a as int].keys@.len() + n.children@[a + 1].keys@.len() + 1 <= 2 * t - 1,
    ensures
        r.keys@.len() + 1 == n.keys@.len(),
        r.values@.len() == r.keys@.len(),
        r.children@.len() == r.keys@.len() + 1,
        kids_ok(r.children@, t, bdepth(n.children@[0]), -1),
        bseq(r) == bseq(n),
{
    let ghost ks = n.keys@;
    let ghost vs = n.values@;
    let ghost cs = n.children@;
    let ghost d = bdepth(n.children@[0]);
    let ghost xo = cs[a as int];
    let ghost bo = cs[a + 1];
    let BNode { mut keys, mut values, mut children } = n;
    let nc = children.len();
    let sk = keys.remove(a);
    let sv = values.remove(a);
    let b = children.remove(a + 1);
    let x = children.remove(a);
    proof {
        assert(bshape(xo, t) && bshape(bo, t));
        lemma_same_depth_kind(xo, bo, t);
    }
    let BNode { keys: mut xk, values: mut xv, children: mut xc } = x;
    let BNode { keys: mut bk, values: mut bv, children: mut bc } = b;
    xk.push(sk);
    xv.push(sv);
    xk.append(&mut bk);
    xv.append(&mut bv);
    xc.append(&mut bc);
    let mg = BNode { keys: xk, values: xv, children: xc };
    children.insert(a, mg);
    let res = BNode { keys, values, children };
    proof {
        let m = (ks[a as int], vs[a as int]);
        assert(mg.keys@ =~= xo.keys@ + seq![m.0] + bo.keys@);
        assert(mg.values@ =~= xo.values@ + seq![m.1] + bo.values@);
        assert(mg.children@ =~= xo.children@ + bo.children@);
        lemma_join_entries(xo, m, bo, mg.keys@, mg.values@, mg.children@);
        assert(bseq(mg) == bparts(mg.keys@, mg.values@, mg.children@));
        if xo.children@.len() > 0 {
            assert(bshape(mg, t)) by {
                assert forall|j: int| 0 <= j < mg.children@.len() implies {
                    &&& bshape(#[trigger] mg.children@[j], t)
                    &&& t - 1 <= mg.children@[j].keys@.len() <= 2 * t - 1
                    &&& bdepth(mg.children@[j]) == bdepth(mg.children@[0])
                } by {
                    if j < xo.children@.len() {
                        assert(mg.children@[j] == xo.children@[j]);
                    } else {
                        assert(mg.children@[j] == bo.children@[j - xo.children@.len()]);
                        assert(bdepth(bo.children@[j - xo.children@.len()]) == bdepth(
                            bo.children@[0],
                        ));
                    }
                    assert(mg.children@[0] == xo.children@[0]);
                }
            }
            assert(bdepth(mg) == bdepth(xo)) by {
                assert(mg.children@[0] == xo.children@[0]);
            }
        }
        let ks2 = res.keys@;
        let vs2 = res.values@;
        let cs2 = res.children@;
        assert(ks2 =~= ks.remove(a as int));
        assert(vs2 =~= vs.remove(a as int));
        assert(cs2 =~= cs.remove(a + 1).update(a as int, mg));
        assert(ks2.insert(a as int, m.0) =~= ks);
        assert(vs2.insert(a as int, m.1) =~= vs);
        assert(cs2.remove(a as int).insert(a as int, xo).insert(a + 1, bo) =~= cs);
        assert(cs2[a as int] == mg);
        lemma_expand_entries(ks2, vs2, cs2, a as int, xo, m, bo);
        assert(bseq(res) == bparts(ks2, vs2, cs2));
        assert(bseq(n) == bparts(ks, vs, cs));
        assert forall|j: int| 0 <= j < cs2.len() implies {
            &&& bshape(#[trigger] cs2[j], t)
            &&& t - 1 <= cs2[j].keys@.len() <= 2 * t - 1
            &&& bdepth(cs2[j]) == d
        } by {
            if j < a {
                assert(cs2[j] == cs[j]);
            } else if j > a {
                assert(cs2[j] == cs[j + 1]);
            }
        }
    }
    res
}

/// Restores child `i` of an internal node after it lost a key: a child with too few keys
/// borrows from its left sibling, else from its right sibling, else merges with its left
/// sibling, else with its right one. The node's entries do not change.
pub fn fix_child<K, V>(n: BNode<K, V>, i: usize, t: usize) -> (r: BNode<K, V>)
    requires
        degree_ok(t),
        n.keys@.len() == n.values@.len(),
        n.children@.len() == n.keys@.len() + 1,
        n.keys@.len() >= 1,
        i < n.children@.len(),
        kids_ok(n.children@, t as nat, bdepth(n.children@[0]), i as int),
    ensures
        bshape(r, t as nat),
        bdepth(r) == bdepth(n),
        bseq(r) == bseq(n),
        r.children@.len() == r.keys@.len() + 1,
        r.keys@.len() == n.keys@.len() || r.keys@.len() + 1 == n.keys@.len(),
        n.children@[i as int].keys@.len() >= t - 1 ==> r == n,
{
    let ghost tt = t as nat;
    let ghost d = bdepth(n.children@[0]);
    if n.children[i].keys.len() >= t - 1 {
        proof {
            assert(kids_ok(n.children@, tt, d, -1));
            lemma_shape_from_kids(n, tt, d);
        }
        return n;
    }
    if i > 0 && n.children[i - 1].keys.len() >= t {
        let r = borrow_left(n, i, Ghost(tt));
        proof {
            lemma_shape_from_kids(r, tt, d);
            assert(bdepth(n) == d + 1);
        }
        return r;
    }
    if i < n.children.len() - 1 && n.children[i + 1].keys.len() >= t {
        let r = borrow_right(n, i, Ghost(tt));
        proof {
            lemma_shape_from_kids(r, tt, d);
            assert(bdepth(n) == d + 1);
        }
        return r;
    }
    let r = if i > 0 {
        merge_children(n, i - 1, Ghost(tt), Ghost(i as int))
    } else {
        merge_children(n, 0, Ghost(tt), Ghost(0))
    };
    proof {
        lemma_shape_from_kids(r, tt, d);
        assert(bdepth(n) == d + 1);
    }
    r
}

/// Takes the last entry out of a non-empty subtree.
pub fn remove_max<K: TreeKey, V>(n: BNode<K, V>, t: usize) -> (r: (BNode<K, V>, (K, V)))
    requires
        degree_ok(t),
        bvalid(n, t as nat),
        n.keys@.len() >= 1,
    ensures
        bvalid(r.0, t as nat),
        bdepth(r.0) == bdepth(n),
        r.0.keys@.len() + 1 >= n.keys@.len(),
        r.0.keys@.len() <= n.keys@.len(),
        bseq(n).len() > 0,
        r.1 == bseq(n).last(),
        bseq(r.0) == bseq(n).drop_last(),
    decreases bdepth(n), 1nat,
{
    if n.children.len() == 0 {
        remove_max_leaf(n, Ghost(t as nat))
    } else {
        remove_max_below(n, t)
    }
}

/// Takes the last entry out of a non-empty leaf.
fn remove_max_leaf<K: TreeKey, V>(n: BNode<K, V>, Ghost(t): Ghost<nat>) -> (r: (
    BNode<K, V>,
    (K, V),
))
    requires
        bvalid(n, t),
        n.children@.len() == 0,
        n.keys@.len() >= 1,
    ensures
        bvalid(r.0, t),
        bdepth(r.0) == bdepth(n),
        r.0.keys@.len() + 1 == n.keys@.len(),
        bseq(n).len() > 0,
        r.1 == bseq(n).last(),
        bseq(r.0) == bseq(n).drop_last(),
{
    let ghost s = bseq(n);
    let last = n.keys.len() - 1;
    let ghost klast = n.keys@[last as int];
    proof {
        assert(s.len() == n.keys@.len());
    }
    let (res, e) = remove_from_leaf(n, last, Ghost(t));
    proof {
        let v = e.1;
        let p = choose|p: int|
            0 <= p < s.len() && #[trigger] s[p].0 == klast && v == s[p].1 && bseq(res) == s.remove(
                p,
            );
        assert(s[last as int].0 == klast);
        lemma_entries_map_at(s, last as int);
        assert(p == last);
        assert(bseq(res) =~= s.drop_last());
    }
    (res, e)
}

/// Takes the last entry out of the last child of an internal node.
fn remove_max_below<K: TreeKey, V>(n: BNode<K, V>, t: usize) -> (r: (BNode<K, V>, (K, V)))
    requires
        degree_ok(t),
        bvalid(n, t as nat),
        n.keys@.len() >= 1,
        n.children@.len() > 0,
    ensures
        bvalid(r.0, t as nat),
        bdepth(r.0) == bdepth(n),
        r.0.keys@.len() + 1 >= n.keys@.len(),
        r.0.keys@.len() <= n.keys@.len(),
        bseq(n).len() > 0,
        r.1 == bseq(n).last(),
        bseq(r.0) == bseq(n).drop_last(),
    decreases bdepth(n), 0nat,
{
    let ghost tt = t as nat;
    let ghost s = bseq(n);
    let ghost ks = n.keys@;
    let ghost vs = n.values@;
    let ghost cs = n.children@;
    let last = n.children.len() - 1;
    let ghost li = last as int;
    let ghost d = bdepth(cs[0]);
    proof {
        assert(bshape(cs[li], tt));
        lemma_child_bounds(n, li);
        lemma_kids_from_shape(n, tt);
    }
    let BNode { keys, values, mut children } = n;
    let c = children.remove(last);
    let (c2, e) = remove_max(c, t);
    children.push(c2);
    let m = BNode { keys, values, children };
    proof {
        let cs2 = m.children@;
        assert(cs2 =~= cs.update(li, c2));
        lemma_replace_child(ks, vs, cs, li, c2);
        assert(bright(ks, vs, cs, li) =~= Seq::<(K, V)>::empty());
        let l = bleft(ks, vs, cs, li);
        assert(bseq(m) == bparts(ks, vs, cs2));
        assert(bseq(n) == bparts(ks, vs, cs));
        assert(s =~= l + bseq(cs[li]));
        assert(bseq(m) =~= s.drop_last());
        assert(s.last() == bseq(cs[li]).last());
        lemma_kid_replaced(cs, li, c2, tt, d);
        lemma_sorted_remove(s, s.len() - 1);
        assert(s.remove(s.len() - 1) =~= s.drop_last());
    }
    let res = fix_child(m, last, t);
    proof {
        assert(bdepth(m) == bdepth(n));
    }
    (res, e)
}

/// A take from the entries of one child is a take from the entries of the node around it.
proof fn lemma_take_lift<K: TreeKey, V>(
    l: Seq<(K, V)>,
    sc: Seq<(K, V)>,
    sc2: Seq<(K, V)>,
    rt: Seq<(K, V)>,
    key: K,
    r: Option<V>,
)
    requires
        sorted_entries(l + sc + rt),
        take_result(sc, sc2, key, r),
        entries_map(l + sc + rt).dom().contains(key) <==> entries_map(sc).dom().contains(key),
    ensures
        take_result(l + sc + rt, l + sc2 + rt, key, r),
        sorted_entries(l + sc2 + rt),
{
    let s = l + sc + rt;
    let s2 = l + sc2 + rt;
    match r {
        Some(v) => {
            let p = choose|p: int|
                0 <= p < sc.len() && #[trigger] sc[p].0 == key && v == sc[p].1 && sc2 == sc.remove(
                    p,
                );
            let q = l.len() + p;
            assert(s[q] == sc[p]);
            assert(s2 =~= s.remove(q));
            lemma_sorted_remove(s, q);
            assert(s[q].0 == key);
        },
        None => {
            assert(s2 =~= s);
        },
    }
}

/// The shape facts for a node whose child `i` was replaced by `c2`, which may hold one key
/// fewer than allowed.
proof fn lemma_kid_replaced<K, V>(cs: Seq<BNode<K, V>>, i: int, c2: BNode<K, V>, t: nat, d: nat)
    requires
        0 <= i < cs.len(),
        kids_ok(cs, t, d, -1),
        bshape(c2, t),
        bdepth(c2) == d,
        t - 2 <= c2.keys@.len() <= 2 * t - 1,
    ensures
        kids_ok(cs.update(i, c2), t, d, i),
        bdepth(cs.update(i, c2)[0]) == d,
{
    let cs2 = cs.update(i, c2);
    assert forall|j: int| 0 <= j < cs2.len() implies {
        &&& bshape(#[trigger] cs2[j], t)
        &&& (if j == i {
            t - 2
        } else {
            t - 1
        }) <= cs2[j].keys@.len() <= 2 * t - 1
        &&& bdepth(cs2[j]) == d
    } by {
        if j != i {
            assert(cs2[j] == cs[j]);
        }
    }
    assert(bdepth(cs2[0]) == d);
}

/// Takes the entry at position `i` out of a leaf.
fn remove_from_leaf<K: TreeKey, V>(n: BNode<K, V>, i: usize, Ghost(t): Ghost<nat>) -> (r: (
    BNode<K, V>,
    (K, V),
))
    requires
        bvalid(n, t),
        n.children@.len() == 0,
        i < n.keys@.len(),
    ensures
        bvalid(r.0, t),
        bdepth(r.0) == bdepth(n),
        r.0.keys@.len() + 1 == n.keys@.len(),
        r.1.0 == n.keys@[i as int],
        take_result(bseq(n), bseq(r.0), n.keys@[i as int], Some(r.1.1)),
{
    let ghost s = bseq(n);
    let ghost ks = n.keys@;
    let ghost vs = n.values@;
    let ghost ii = i as int;
    let BNode { mut keys, mut values, children } = n;
    let k = keys.remove(i);
    let v = values.remove(i);
    let res = BNode { keys, values, children };
    proof {
        assert(bseq(res) =~= s.remove(ii));
        assert(s[ii] == (ks[ii], vs[ii]));
        lemma_sorted_remove(s, ii);
        assert(s[ii].0 == ks[ii]);
    }
    (res, (k, v))
}

/// Takes the entry at position `i` out of an internal node: its predecessor, the last entry of
/// child `i`, takes its place.
fn remove_at_internal<K: TreeKey, V>(n: BNode<K, V>, i: usize, t: usize) -> (r: (
    BNode<K, V>,
    V,
))
    requires
        degree_ok(t),
        bvalid(n, t as nat),
        n.children@.len() > 0,
        i < n.keys@.len(),
    ensures
        bvalid(r.0, t as nat),
        bdepth(r.0) == bdepth(n),
        r.0.keys@.len() + 1 >= n.keys@.len(),
        r.0.keys@.len() <= n.keys@.len(),
        take_result(bseq(n), bseq(r.0), n.keys@[i as int], Some(r.1)),
    decreases bdepth(n), 0nat,
{
    let ghost tt = t as nat;
    let ghost s = bseq(n);
    let ghost ks = n.keys@;
    let ghost vs = n.values@;
    let ghost cs = n.children@;
    let ghost ii = i as int;
    let ghost d = bdepth(cs[0]);
    proof {
        assert(bshape(cs[ii], tt));
        lemma_child_bounds(n, ii);
        lemma_kids_from_shape(n, tt);
        lemma_bseq_parts(n);
        lemma_child_at(ks, vs, cs, ii);
    }
    let BNode { mut keys, mut values, mut children } = n;
    let c = children.remove(i);
    let (c2, pe) = remove_max(c, t);
    let (pk, pv) = pe;
    children.insert(i, c2);
    let _oldk = replace_at(&mut keys, i, pk);
    let old = replace_at(&mut values, i, pv);
    let m = BNode { keys, values, children };
    proof {
        let ks2 = m.keys@;
        let vs2 = m.values@;
        let cs2 = m.children@;
        assert(cs2 =~= cs.update(ii, c2));
        lemma_child_at(ks2, vs2, cs2, ii);
        if ii > 0 {
            assert(ks2.take(ii - 1) =~= ks.take(ii - 1));
            assert(vs2.take(ii - 1) =~= vs.take(ii - 1));
            assert(cs2.take(ii) =~= cs.take(ii));
        }
        assert(ks2.skip(ii + 1) =~= ks.skip(ii + 1));
        assert(vs2.skip(ii + 1) =~= vs.skip(ii + 1));
        assert(cs2.skip(ii + 1) =~= cs.skip(ii + 1));
        let l = bleft(ks, vs, cs, ii);
        assert(bleft(ks2, vs2, cs2, ii) == l);
        let rr = bparts(ks.skip(ii + 1), vs.skip(ii + 1), cs.skip(ii + 1));
        let sc = bseq(cs[ii]);
        assert(s =~= l + sc + seq![(ks[ii], vs[ii])] + rr);
        assert(bseq(m) == bparts(ks2, vs2, cs2));
        assert(bseq(m) =~= l + sc.drop_last() + seq![sc.last()] + rr);
        let p = (l.len() + sc.len()) as int;
        assert(bseq(m) =~= s.remove(p));
        assert(s[p] == (ks[ii], vs[ii]));
        lemma_sorted_remove(s, p);
        assert(s[p].0 == ks[ii]);
        lemma_kid_replaced(cs, ii, c2, tt, d);
    }
    let res = fix_child(m, i, t);
    proof {
        assert(bdepth(m) == bdepth(n));
    }
    (res, old)
}

/// Takes `key` out of child `i` of an internal node, where `key` ranks between the keys around
/// that child.
fn remove_below<K: TreeKey, V>(n: BNode<K, V>, i: usize, key: &K, t: usize) -> (r: (
    BNode<K, V>,
    Option<V>,
))
    requires
        degree_ok(t),
        bvalid(n, t as nat),
        n.children@.len() > 0,
        n.keys@.len() >= 1,
        i < n.children@.len(),
        forall|j: int| 0 <= j < i ==> (#[trigger] n.keys@[j]).rank() < key.rank(),
        i < n.keys@.len() ==> n.keys@[i as int].rank() >= key.rank() && n.keys@[i as int] != *key,
    ensures
        bvalid(r.0, t as nat),
        bdepth(r.0) == bdepth(n),
        r.0.keys@.len() + 1 >= n.keys@.len(),
        r.0.keys@.len() <= n.keys@.len(),
        r.1 is None ==> r.0.keys@.len() == n.keys@.len(),
        take_result(bseq(n), bseq(r.0), *key, r.1),
    decreases bdepth(n), 0nat,
{
    let ghost tt = t as nat;
    let ghost ks = n.keys@;
    let ghost vs = n.values@;
    let ghost cs = n.children@;
    let ghost ii = i as int;
    let ghost d = bdepth(cs[0]);
    proof {
        assert(bshape(cs[ii], tt));
        lemma_child_bounds(n, ii);
        lemma_kids_from_shape(n, tt);
        lemma_descend(n, ii, *key);
    }
    let BNode { keys, values, mut children } = n;
    let c = children.remove(i);
    let (c2, r) = remove_rec(c, key, t);
    children.insert(i, c2);
    let m = BNode { keys, values, children };
    proof {
        let cs2 = m.children@;
        assert(cs2 =~= cs.update(ii, c2));
        lemma_replace_child(ks, vs, cs, ii, c2);
        let l = bleft(ks, vs, cs, ii);
        let rt = bright(ks, vs, cs, ii);
        assert(bseq(m) == bparts(ks, vs, cs2));
        assert(bseq(n) == bparts(ks, vs, cs));
        lemma_take_lift(l, bseq(cs[ii]), bseq(c2), rt, *key, r);
        lemma_kid_replaced(cs, ii, c2, tt, d);
    }
    let res = fix_child(m, i, t);
    proof {
        assert(bdepth(m) == bdepth(n));
    }
    (res, r)
}

/// Takes `key` out of a subtree whose root holds at least one key; returns its value if it was
/// there.
pub fn remove_rec<K: TreeKey, V>(n: BNode<K, V>, key: &K, t: usize) -> (r: (
    BNode<K, V>,
    Option<V>,
))
    requires
        degree_ok(t),
        bvalid(n, t as nat),
        n.keys@.len() >= 1,
    ensures
        bvalid(r.0, t as nat),
        bdepth(r.0) == bdepth(n),
        r.0.keys@.len() + 1 >= n.keys@.len(),
        r.0.keys@.len() <= n.keys@.len(),
        r.1 is None ==> r.0.keys@.len() == n.keys@.len(),
        take_result(bseq(n), bseq(r.0), *key, r.1),
    decreases bdepth(n), 1nat,
{
    let (i, found) = find_slot(&n.keys, key);
    proof {
        if (i as int) < n.keys@.len() && !found {
            if n.keys@[i as int].rank() == key.rank() {
                K::lemma_rank_injective(n.keys@[i as int], *key);
            }
        }
    }
    if n.children.len() == 0 {
        if found {
            let (res, e) = remove_from_leaf(n, i, Ghost(t as nat));
            return (res, Some(e.1));
        }
        proof {
            lemma_leaf_absent(n, i as int, *key);
        }
        return (n, None);
    }
    if found {
        let (res, v) = remove_at_internal(n, i, t);
        (res, Some(v))
    } else {
        remove_below(n, i, key, t)
    }
}

} // verus!
