//! Insertion into a B-tree: full nodes are split on the way down, so that the node that takes
//! the new key always has room for it.
use vstd::prelude::*;

use crate::key::{KeyOrder, TreeKey};
use crate::trees::b_tree::engine::{
    bdepth, bseq, bshape, bvalid, find_slot, lemma_child_bounds, BNode,
};
use crate::trees::b_tree::layout::{
    bleft, bparts, bright, cut_left, cut_right, lemma_child_at, lemma_cut, lemma_pair_at,
};
use crate::trees::b_tree::sorted::{fits_at, lemma_sorted_insert, lemma_sorted_update};
use crate::trees::node::sorted_entries;

verus! {

/// The minimum degree is usable: at least 2, and `2t` fits in a `usize`.
pub open spec fn degree_ok(t: usize) -> bool {
    2 <= t && 2 * t <= usize::MAX
}

/// `s2` is `s` after putting `key -> value`: the value of an equal key was replaced (and `r`
/// holds the old one), or the entry went in where it fits.
pub open spec fn put_result<K: TreeKey, V>(
    s: Seq<(K, V)>,
    s2: Seq<(K, V)>,
    key: K,
    value: V,
    r: Option<V>,
) -> bool {
    match r {
        Some(old) => exists|p: int|
            0 <= p < s.len() && #[trigger] s[p].0 == key && old == s[p].1 && s2 == s.update(
                p,
                (key, value),
            ),
        None => exists|p: int| fits_at(s, p, (key, value)) && #[trigger] s.insert(p, (key, value)) == s2,
    }
}

/// Replaces the element at `i`, returning the old one.
pub fn replace_at<T>(v: &mut Vec<T>, i: usize, x: T) -> (prev: T)
    requires
        i < old(v)@.len(),
    ensures
        prev == old(v)@[i as int],
        final(v)@ == old(v)@.update(i as int, x),
{
    let prev = v.remove(i);
    v.insert(i, x);
    proof {
        assert(v@ =~= old(v)@.update(i as int, x));
    }
    prev
}

/// Splits a full node around its middle key: the keys below it, the middle entry, and the
/// keys above it, with the children shared out accordingly.
fn split_node<K, V>(c: BNode<K, V>, t: usize) -> (r: (BNode<K, V>, (K, V), BNode<K, V>))
    requires
        degree_ok(t),
        c.keys@.len() == 2 * t - 1,
        c.values@.len() == c.keys@.len(),
        c.children@.len() == 0 || c.children@.len() == c.keys@.len() + 1,
    ensures
        r.0.keys@ == c.keys@.take(t - 1),
        r.0.values@ == c.values@.take(t - 1),
        r.0.children@ == cut_left(c.children@, t - 1),
        r.1 == (c.keys@[t - 1], c.values@[t - 1]),
        r.2.keys@ == c.keys@.skip(t as int),
        r.2.values@ == c.values@.skip(t as int),
        r.2.children@ == cut_right(c.children@, t - 1),
        bseq(c) =~= bseq(r.0) + seq![r.1] + bseq(r.2),
{
    let ghost ks = c.keys@;
    let ghost vs = c.values@;
    let ghost cs = c.children@;
    let BNode { mut keys, mut values, mut children } = c;
    let rk = keys.split_off(t);
    let rv = values.split_off(t);
    let mk = keys.remove(t - 1);
    let mv = values.remove(t - 1);
    let rc = if children.len() == 0 {
        Vec::new()
    } else {
        children.split_off(t)
    };
    proof {
        lemma_cut(ks, vs, cs, t - 1);
        assert(keys@ =~= ks.take(t - 1));
        assert(values@ =~= vs.take(t - 1));
        assert(rk@ =~= ks.skip(t as int));
        assert(rv@ =~= vs.skip(t as int));
        if cs.len() == 0 {
            assert(rc@ =~= cut_right(cs, t - 1));
            assert(children@ =~= cut_left(cs, t - 1));
        } else {
            assert(rc@ =~= cut_right(cs, t - 1));
            assert(children@ =~= cut_left(cs, t - 1));
        }
    }
    (BNode { keys, values, children }, (mk, mv), BNode { keys: rk, values: rv, children: rc })
}

/// The halves of a split node keep its shape and depth.
proof fn lemma_split_halves<K, V>(c: BNode<K, V>, l: BNode<K, V>, r: BNode<K, V>, t: nat)
    requires
        t >= 2,
        bshape(c, t),
        c.keys@.len() == 2 * t - 1,
        l.keys@ == c.keys@.take(t - 1),
        l.values@ == c.values@.take(t - 1),
        l.children@ == cut_left(c.children@, t - 1),
        r.keys@ == c.keys@.skip(t as int),
        r.values@ == c.values@.skip(t as int),
        r.children@ == cut_right(c.children@, t - 1),
    ensures
        bshape(l, t),
        bshape(r, t),
        bdepth(l) == bdepth(c),
        bdepth(r) == bdepth(c),
{
    if c.children@.len() > 0 {
        assert forall|j: int| 0 <= j < l.children@.len() implies c.children@[j]
            == #[trigger] l.children@[j] by {}
        assert(l.children@[0] == c.children@[0]);
        assert forall|j: int| 0 <= j < r.children@.len() implies c.children@[j + t]
            == #[trigger] r.children@[j] by {}
        assert(r.children@[0] == c.children@[t as int]);
    }
}

/// The children after a split: child `i` gave way to the halves `l` and `r`.
proof fn lemma_split_children<K, V>(
    cs: Seq<BNode<K, V>>,
    cs2: Seq<BNode<K, V>>,
    i: int,
    l: BNode<K, V>,
    r: BNode<K, V>,
    t: nat,
)
    requires
        0 <= i < cs.len(),
        cs2 == cs.remove(i).insert(i, l).insert(i + 1, r),
        forall|j: int|
            0 <= j < cs.len() ==> {
                &&& bshape(#[trigger] cs[j], t)
                &&& t - 1 <= cs[j].keys@.len() <= 2 * t - 1
                &&& bdepth(cs[j]) == bdepth(cs[0])
            },
        bshape(l, t),
        bshape(r, t),
        bdepth(l) == bdepth(cs[i]),
        bdepth(r) == bdepth(cs[i]),
        t - 1 <= l.keys@.len() <= 2 * t - 1,
        t - 1 <= r.keys@.len() <= 2 * t - 1,
    ensures
        cs2.len() == cs.len() + 1,
        cs2[i] == l,
        cs2[i + 1] == r,
        bdepth(cs2[0]) == bdepth(cs[0]),
        forall|j: int|
            0 <= j < cs2.len() ==> {
                &&& bshape(#[trigger] cs2[j], t)
                &&& t - 1 <= cs2[j].keys@.len() <= 2 * t - 1
                &&& bdepth(cs2[j]) == bdepth(cs2[0])
            },
{
    if i == 0 {
        assert(cs2[0] == l);
    } else {
        assert(cs2[0] == cs[0]);
    }
    assert forall|j: int| 0 <= j < cs2.len() implies {
        &&& bshape(#[trigger] cs2[j], t)
        &&& t - 1 <= cs2[j].keys@.len() <= 2 * t - 1
        &&& bdepth(cs2[j]) == bdepth(cs2[0])
    } by {
        if j < i {
            assert(cs2[j] == cs[j]);
        } else if j > i + 1 {
            assert(cs2[j] == cs[j - 1]);
        }
    }
}

/// Replacing child `i` by two children with a key between them, where the old child's entries
/// are the first child's, that key's and the second child's, keeps the node's entries.
pub proof fn lemma_expand_entries<K, V>(
    ks: Seq<K>,
    vs: Seq<V>,
    cs: Seq<BNode<K, V>>,
    i: int,
    l: BNode<K, V>,
    m: (K, V),
    r: BNode<K, V>,
)
    requires
        ks.len() == vs.len(),
        cs.len() == ks.len() + 1,
        0 <= i < cs.len(),
        bseq(cs[i]) == bseq(l) + seq![m] + bseq(r),
    ensures
        bparts(ks.insert(i, m.0), vs.insert(i, m.1), cs.remove(i).insert(i, l).insert(i + 1, r))
            =~= bparts(ks, vs, cs),
{
    let ks2 = ks.insert(i, m.0);
    let vs2 = vs.insert(i, m.1);
    let cs2 = cs.remove(i).insert(i, l).insert(i + 1, r);
    lemma_child_at(ks, vs, cs, i);
    lemma_pair_at(ks2, vs2, cs2, i);
    assert(cs2[i] == l && cs2[i + 1] == r);
    if i > 0 {
        assert(ks2.take(i - 1) =~= ks.take(i - 1));
        assert(vs2.take(i - 1) =~= vs.take(i - 1));
        assert(cs2.take(i) =~= cs.take(i));
    }
    assert(bleft(ks2, vs2, cs2, i) == bleft(ks, vs, cs, i));
    if i < ks.len() {
        assert(ks2.skip(i + 2) =~= ks.skip(i + 1));
        assert(vs2.skip(i + 2) =~= vs.skip(i + 1));
        assert(cs2.skip(i + 2) =~= cs.skip(i + 1));
    }
    assert(bright(ks2, vs2, cs2, i + 1) == bright(ks, vs, cs, i));
}

/// Splits the full child `i` of an internal node that has room for one more key: the child's
/// middle entry moves up to position `i` and its two halves become children `i` and `i + 1`.
/// The node's entries do not change.
pub fn split_child<K, V>(n: BNode<K, V>, i: usize, t: usize) -> (r: BNode<K, V>)
    requires
        degree_ok(t),
        bshape(n, t as nat),
        n.children@.len() == n.keys@.len() + 1,
        n.keys@.len() < 2 * t - 1,
        i < n.children@.len(),
        n.children@[i as int].keys@.len() == 2 * t - 1,
    ensures
        bshape(r, t as nat),
        bseq(r) == bseq(n),
        bdepth(r) == bdepth(n),
        r.keys@ == n.keys@.insert(i as int, n.children@[i as int].keys@[t - 1]),
        r.values@ == n.values@.insert(i as int, n.children@[i as int].values@[t - 1]),
        r.children@.len() == n.children@.len() + 1,
        r.children@[i as int].keys@.len() == t - 1,
        r.children@[i as int + 1].keys@.len() == t - 1,
{
    let ghost ks = n.keys@;
    let ghost vs = n.values@;
    let ghost cs = n.children@;
    let ghost c0 = n.children@[i as int];
    let BNode { mut keys, mut values, mut children } = n;
    let c = children.remove(i);
    proof {
        assert(bshape(c0, t as nat));
    }
    let (l, m, r) = split_node(c, t);
    proof {
        lemma_split_halves(c0, l, r, t as nat);
    }
    children.insert(i, l);
    children.insert(i + 1, r);
    keys.insert(i, m.0);
    values.insert(i, m.1);
    let res = BNode { keys, values, children };
    proof {
        lemma_split_children(cs, res.children@, i as int, l, r, t as nat);
        lemma_expand_entries(ks, vs, cs, i as int, l, m, r);
        assert(bseq(res) == bparts(res.keys@, res.values@, res.children@));
        assert(bseq(n) == bparts(ks, vs, cs));
        assert(bshape(res, t as nat));
    }
    res
}

/// A put into the entries of one child is a put into the entries of the node around it, when
/// the key ranks between the node's entries left and right of that child.
proof fn lemma_put_lift<K: TreeKey, V>(
    l: Seq<(K, V)>,
    sc: Seq<(K, V)>,
    sc2: Seq<(K, V)>,
    rt: Seq<(K, V)>,
    key: K,
    value: V,
    r: Option<V>,
)
    requires
        sorted_entries(l + sc + rt),
        put_result(sc, sc2, key, value, r),
        l.len() > 0 ==> l.last().0.rank() < key.rank(),
        rt.len() > 0 ==> key.rank() < rt[0].0.rank(),
    ensures
        put_result(l + sc + rt, l + sc2 + rt, key, value, r),
        sorted_entries(l + sc2 + rt),
{
    let s = l + sc + rt;
    let s2 = l + sc2 + rt;
    match r {
        Some(old) => {
            let p = choose|p: int|
                0 <= p < sc.len() && #[trigger] sc[p].0 == key && old == sc[p].1 && sc2
                    == sc.update(p, (key, value));
            let q = l.len() + p;
            assert(s[q] == sc[p]);
            assert(s2 =~= s.update(q, (key, value)));
            lemma_sorted_update(s, q, value);
            assert(s[q].0 == key);
        },
        None => {
            let p = choose|p: int|
                fits_at(sc, p, (key, value)) && #[trigger] sc.insert(p, (key, value)) == sc2;
            let q = l.len() + p;
            assert(s2 =~= s.insert(q, (key, value)));
            if q > 0 {
                if p > 0 {
                    assert(s[q - 1] == sc[p - 1]);
                } else {
                    assert(s[q - 1] == l.last());
                }
            }
            if q < s.len() {
                if p < sc.len() {
                    assert(s[q] == sc[p]);
                } else {
                    assert(s[q] == rt[0]);
                }
            }
            lemma_sorted_insert(s, q, (key, value));
            assert(s.insert(q, (key, value)) == s2);
        },
    }
}

/// Replacing child `j` changes only the child's part of the node's entries.
pub proof fn lemma_replace_child<K, V>(
    ks: Seq<K>,
    vs: Seq<V>,
    cs: Seq<BNode<K, V>>,
    j: int,
    c2: BNode<K, V>,
)
    requires
        ks.len() == vs.len(),
        cs.len() == ks.len() + 1,
        0 <= j < cs.len(),
    ensures
        bparts(ks, vs, cs) =~= bleft(ks, vs, cs, j) + bseq(cs[j]) + bright(ks, vs, cs, j),
        bparts(ks, vs, cs.update(j, c2)) =~= bleft(ks, vs, cs, j) + bseq(c2) + bright(
            ks,
            vs,
            cs,
            j,
        ),
{
    let cs2 = cs.update(j, c2);
    lemma_child_at(ks, vs, cs, j);
    lemma_child_at(ks, vs, cs2, j);
    if j > 0 {
        assert(cs2.take(j) =~= cs.take(j));
    }
    assert(bleft(ks, vs, cs2, j) == bleft(ks, vs, cs, j));
    if j < ks.len() {
        assert(cs2.skip(j + 1) =~= cs.skip(j + 1));
    }
    assert(bright(ks, vs, cs2, j) == bright(ks, vs, cs, j));
}

/// The entries left and right of child `j` end and start with the keys around it.
pub proof fn lemma_around_child<K, V>(ks: Seq<K>, vs: Seq<V>, cs: Seq<BNode<K, V>>, j: int)
    requires
        ks.len() == vs.len(),
        cs.len() == ks.len() + 1,
        0 <= j < cs.len(),
    ensures
        bleft(ks, vs, cs, j).len() > 0 <==> j > 0,
        j > 0 ==> bleft(ks, vs, cs, j).last() == (ks[j - 1], vs[j - 1]),
        bright(ks, vs, cs, j).len() > 0 <==> j < ks.len(),
        j < ks.len() ==> bright(ks, vs, cs, j)[0] == (ks[j], vs[j]),
{
}

/// Replaces the value of key `i` of a node; returns the old value.
fn put_at<K: TreeKey, V>(n: BNode<K, V>, i: usize, value: V, Ghost(t): Ghost<nat>) -> (r: (
    BNode<K, V>,
    V,
))
    requires
        bvalid(n, t),
        i < n.keys@.len(),
    ensures
        bvalid(r.0, t),
        bdepth(r.0) == bdepth(n),
        r.0.keys@ == n.keys@,
        r.0.children@ == n.children@,
        put_result(bseq(n), bseq(r.0), n.keys@[i as int], value, Some(r.1)),
{
    let ghost ks = n.keys@;
    let ghost vs = n.values@;
    let ghost cs = n.children@;
    let ghost ii = i as int;
    let BNode { keys, mut values, children } = n;
    let old = replace_at(&mut values, i, value);
    let res = BNode { keys, values, children };
    proof {
        let vs2 = res.values@;
        lemma_cut(ks, vs, cs, ii);
        lemma_cut(ks, vs2, cs, ii);
        assert(vs2.take(ii) =~= vs.take(ii));
        assert(vs2.skip(ii + 1) =~= vs.skip(ii + 1));
        let s = bseq(n);
        let p = bparts(ks.take(ii), vs.take(ii), cut_left(cs, ii)).len() as int;
        assert(s[p] == (ks[ii], vs[ii]));
        assert(bseq(res) =~= s.update(p, (ks[ii], value)));
        lemma_sorted_update(s, p, value);
        assert(s[p].0 == ks[ii]);
        assert(bshape(res, t));
    }
    (res, old)
}

/// Inserts `key -> value` at position `i` of a leaf, where it ranks between its neighbours.
fn insert_leaf<K: TreeKey, V>(n: BNode<K, V>, i: usize, key: K, value: V, Ghost(t): Ghost<nat>) -> (r:
    BNode<K, V>)
    requires
        bvalid(n, t),
        n.children@.len() == 0,
        i <= n.keys@.len(),
        forall|x: int| 0 <= x < i ==> (#[trigger] n.keys@[x]).rank() < key.rank(),
        i < n.keys@.len() ==> key.rank() < n.keys@[i as int].rank(),
    ensures
        bvalid(r, t),
        bdepth(r) == bdepth(n),
        r.keys@.len() == n.keys@.len() + 1,
        put_result(bseq(n), bseq(r), key, value, None),
{
    let ghost s = bseq(n);
    let ghost ks = n.keys@;
    let ghost vs = n.values@;
    let BNode { mut keys, mut values, children } = n;
    keys.insert(i, key);
    values.insert(i, value);
    let res = BNode { keys, values, children };
    proof {
        let e = (key, value);
        assert(bseq(res) =~= s.insert(i as int, e));
        if i > 0 {
            assert(s[i - 1] == (ks[i - 1], vs[i - 1]));
        }
        if i < ks.len() {
            assert(s[i as int] == (ks[i as int], vs[i as int]));
        }
        assert(fits_at(s, i as int, e));
        lemma_sorted_insert(s, i as int, e);
        assert(s.insert(i as int, e) == bseq(res));
    }
    res
}

/// Puts `key -> value` into child `j` of an internal node, where `key` ranks between the keys
/// around that child and the child has room for one more key.
fn insert_below<K: TreeKey, V>(m: BNode<K, V>, j: usize, key: K, value: V, t: usize) -> (r: (
    BNode<K, V>,
    Option<V>,
))
    requires
        degree_ok(t),
        bvalid(m, t as nat),
        m.children@.len() == m.keys@.len() + 1,
        j < m.children@.len(),
        m.children@[j as int].keys@.len() < 2 * t - 1,
        forall|x: int| 0 <= x < j ==> (#[trigger] m.keys@[x]).rank() < key.rank(),
        j < m.keys@.len() ==> key.rank() < m.keys@[j as int].rank(),
    ensures
        bvalid(r.0, t as nat),
        bdepth(r.0) == bdepth(m),
        r.0.keys@ == m.keys@,
        put_result(bseq(m), bseq(r.0), key, value, r.1),
    decreases bdepth(m), 0nat,
{
    let ghost tt = t as nat;
    let ghost ks = m.keys@;
    let ghost vs = m.values@;
    let ghost cs = m.children@;
    let ghost jj = j as int;
    proof {
        assert(bshape(cs[jj], tt));
        lemma_child_bounds(m, jj);
        assert(bdepth(cs[jj]) == bdepth(cs[0]));
    }
    let BNode { keys, values, mut children } = m;
    let c = children.remove(j);
    let (c2, r) = insert_nonfull(c, key, value, t);
    children.insert(j, c2);
    let res = BNode { keys, values, children };
    proof {
        assert(res.children@ =~= cs.update(jj, c2));
        lemma_replace_child(ks, vs, cs, jj, c2);
        lemma_around_child(ks, vs, cs, jj);
        let l = bleft(ks, vs, cs, jj);
        let rt = bright(ks, vs, cs, jj);
        assert(bseq(m) == bparts(ks, vs, cs));
        assert(bseq(res) == bparts(ks, vs, res.children@));
        lemma_put_lift(l, bseq(cs[jj]), bseq(c2), rt, key, value, r);
        let cs2 = res.children@;
        assert forall|x: int| 0 <= x < cs2.len() implies {
            &&& bshape(#[trigger] cs2[x], tt)
            &&& tt - 1 <= cs2[x].keys@.len() <= 2 * tt - 1
            &&& bdepth(cs2[x]) == bdepth(cs2[0])
        } by {
            if x != jj {
                assert(cs2[x] == cs[x]);
            }
            if jj != 0 {
                assert(cs2[0] == cs[0]);
            }
        }
        assert(bshape(res, tt));
        if jj != 0 {
            assert(cs2[0] == cs[0]);
        }
    }
    (res, r)
}

/// Puts `key -> value` into a subtree whose root has room for one more key, splitting full
/// nodes on the way down; returns the replaced value of an equal key.
pub fn insert_nonfull<K: TreeKey, V>(n: BNode<K, V>, key: K, value: V, t: usize) -> (r: (
    BNode<K, V>,
    Option<V>,
))
    requires
        degree_ok(t),
        bvalid(n, t as nat),
        n.keys@.len() < 2 * t - 1,
    ensures
        bvalid(r.0, t as nat),
        bdepth(r.0) == bdepth(n),
        n.keys@.len() <= r.0.keys@.len() <= 2 * t - 1,
        put_result(bseq(n), bseq(r.0), key, value, r.1),
    decreases bdepth(n), 1nat,
{
    let ghost tt = t as nat;
    let (i, found) = find_slot(&n.keys, &key);
    if found {
        let (res, old) = put_at(n, i, value, Ghost(tt));
        return (res, Some(old));
    }
    proof {
        if i < n.keys@.len() {
            if n.keys@[i as int].rank() == key.rank() {
                K::lemma_rank_injective(n.keys@[i as int], key);
            }
        }
    }
    if n.children.len() == 0 {
        let res = insert_leaf(n, i, key, value, Ghost(tt));
        return (res, None);
    }
    if n.children[i].keys.len() == 2 * t - 1 {
        let ghost ks = n.keys@;
        let m = split_child(n, i, t);
        match key.compare(&m.keys[i]) {
            KeyOrder::Greater => {
                proof {
                    assert forall|x: int| 0 <= x < i + 1 implies (#[trigger] m.keys@[x]).rank()
                        < key.rank() by {
                        if x < i {
                            assert(m.keys@[x] == ks[x]);
                        }
                    }
                    if i + 1 < m.keys@.len() {
                        assert(m.keys@[i + 1] == ks[i as int]);
                    }
                }
                insert_below(m, i + 1, key, value, t)
            },
            KeyOrder::Equal => {
                let (res, old) = put_at(m, i, value, Ghost(tt));
                (res, Some(old))
            },
            KeyOrder::Less => {
                proof {
                    assert forall|x: int| 0 <= x < i implies (#[trigger] m.keys@[x]).rank()
                        < key.rank() by {
                        assert(m.keys@[x] == ks[x]);
                    }
                }
                insert_below(m, i, key, value, t)
            },
        }
    } else {
        insert_below(n, i, key, value, t)
    }
}

} // verus!
