//! Sorted entry sequences and the maps they stand for: what inserting, replacing and removing
//! one entry of the sequence does to the map.
use vstd::prelude::*;

use crate::key::TreeKey;
use crate::trees::b_tree::engine::{entries_map, lemma_entries_map_at};
use crate::trees::node::{
    has_key_above, has_key_below, is_max_key, is_min_key, is_next_key, is_prev_key, sorted_entries,
};

verus! {

/// `e` fits at position `p` of the sorted sequence `s`: it ranks strictly between its
/// neighbours there.
pub open spec fn fits_at<K: TreeKey, V>(s: Seq<(K, V)>, p: int, e: (K, V)) -> bool {
    &&& 0 <= p <= s.len()
    &&& p > 0 ==> s[p - 1].0.rank() < e.0.rank()
    &&& p < s.len() ==> e.0.rank() < s[p].0.rank()
}

/// Inserting an entry where it fits keeps the sequence sorted and adds the entry to the map;
/// its key was not there before.
pub proof fn lemma_sorted_insert<K: TreeKey, V>(s: Seq<(K, V)>, p: int, e: (K, V))
    requires
        sorted_entries(s),
        fits_at(s, p, e),
    ensures
        sorted_entries(s.insert(p, e)),
        !entries_map(s).dom().contains(e.0),
        entries_map(s.insert(p, e)) =~= entries_map(s).insert(e.0, e.1),
{
    let s2 = s.insert(p, e);
    assert forall|a: int, b: int| 0 <= a < b < s2.len() implies #[trigger] s2[a].0.rank()
        < #[trigger] s2[b].0.rank() by {
        if a < p && b > p {
            assert(s[a].0.rank() <= s[p - 1].0.rank());
            assert(s[p].0.rank() <= s[b - 1].0.rank());
        } else if a < p && b == p {
            assert(s[a].0.rank() <= s[p - 1].0.rank());
        } else if a == p {
            assert(s[p].0.rank() <= s[b - 1].0.rank());
        } else if a > p {
            assert(s2[a] == s[a - 1] && s2[b] == s[b - 1]);
        }
    }
    if entries_map(s).dom().contains(e.0) {
        let i = choose|i: int| 0 <= i < s.len() && #[trigger] s[i].0 == e.0;
        if i < p {
            assert(s[i].0.rank() <= s[p - 1].0.rank());
        } else {
            assert(s[p].0.rank() <= s[i].0.rank());
        }
    }
    let m = entries_map(s);
    let m2 = entries_map(s2);
    assert(s2[p] == e);
    lemma_entries_map_at(s2, p);
    assert forall|k: K| #[trigger] m2.dom().contains(k) <==> m.insert(e.0, e.1).dom().contains(
        k,
    ) by {
        if m2.dom().contains(k) {
            let j = choose|j: int| 0 <= j < s2.len() && #[trigger] s2[j].0 == k;
            if j < p {
                assert(s2[j] == s[j]);
            } else if j > p {
                assert(s2[j] == s[j - 1]);
            }
        }
        if m.dom().contains(k) {
            let j = choose|j: int| 0 <= j < s.len() && #[trigger] s[j].0 == k;
            if j < p {
                assert(s2[j] == s[j]);
            } else {
                assert(s2[j + 1] == s[j]);
            }
        }
    }
    assert forall|k: K| #[trigger] m2.dom().contains(k) implies m2[k] == m.insert(e.0, e.1)[k] by {
        if k != e.0 {
            let j = choose|j: int| 0 <= j < s2.len() && #[trigger] s2[j].0 == k;
            if j < p {
                assert(s2[j] == s[j]);
                lemma_entries_map_at(s2, j);
                lemma_entries_map_at(s, j);
            } else {
                assert(j != p);
                assert(s2[j] == s[j - 1]);
                lemma_entries_map_at(s2, j);
                lemma_entries_map_at(s, j - 1);
            }
        }
    }
}

/// Replacing the value of the entry at `p` keeps the sequence sorted and replaces the value in
/// the map.
pub proof fn lemma_sorted_update<K: TreeKey, V>(s: Seq<(K, V)>, p: int, v: V)
    requires
        sorted_entries(s),
        0 <= p < s.len(),
    ensures
        sorted_entries(s.update(p, (s[p].0, v))),
        entries_map(s).dom().contains(s[p].0),
        entries_map(s)[s[p].0] == s[p].1,
        entries_map(s.update(p, (s[p].0, v))) =~= entries_map(s).insert(s[p].0, v),
{
    let k0 = s[p].0;
    let s2 = s.update(p, (k0, v));
    assert forall|a: int, b: int| 0 <= a < b < s2.len() implies #[trigger] s2[a].0.rank()
        < #[trigger] s2[b].0.rank() by {
        assert(s2[a].0 == s[a].0 && s2[b].0 == s[b].0);
    }
    lemma_entries_map_at(s, p);
    lemma_entries_map_at(s2, p);
    let m = entries_map(s);
    let m2 = entries_map(s2);
    assert forall|k: K| #[trigger] m2.dom().contains(k) <==> m.dom().contains(k) by {
        if m2.dom().contains(k) {
            let j = choose|j: int| 0 <= j < s2.len() && #[trigger] s2[j].0 == k;
            assert(s[j].0 == k);
        }
        if m.dom().contains(k) {
            let j = choose|j: int| 0 <= j < s.len() && #[trigger] s[j].0 == k;
            assert(s2[j].0 == k);
        }
    }
    assert forall|k: K| #[trigger] m2.dom().contains(k) implies m2[k] == m.insert(k0, v)[k] by {
        if k != k0 {
            let j = choose|j: int| 0 <= j < s2.len() && #[trigger] s2[j].0 == k;
            assert(s2[j] == s[j]);
            lemma_entries_map_at(s2, j);
            lemma_entries_map_at(s, j);
        }
    }
}

/// Removing the entry at `p` keeps the sequence sorted and removes its key from the map.
pub proof fn lemma_sorted_remove<K: TreeKey, V>(s: Seq<(K, V)>, p: int)
    requires
        sorted_entries(s),
        0 <= p < s.len(),
    ensures
        sorted_entries(s.remove(p)),
        entries_map(s).dom().contains(s[p].0),
        entries_map(s)[s[p].0] == s[p].1,
        entries_map(s.remove(p)) =~= entries_map(s).remove(s[p].0),
{
    let k0 = s[p].0;
    let s2 = s.remove(p);
    assert forall|a: int, b: int| 0 <= a < b < s2.len() implies #[trigger] s2[a].0.rank()
        < #[trigger] s2[b].0.rank() by {
        if a < p && b >= p {
            assert(s2[a] == s[a] && s2[b] == s[b + 1]);
        } else if a >= p {
            assert(s2[a] == s[a + 1] && s2[b] == s[b + 1]);
        }
    }
    lemma_entries_map_at(s, p);
    let m = entries_map(s);
    let m2 = entries_map(s2);
    assert forall|k: K| #[trigger] m2.dom().contains(k) <==> m.remove(k0).dom().contains(k) by {
        if m2.dom().contains(k) {
            let j = choose|j: int| 0 <= j < s2.len() && #[trigger] s2[j].0 == k;
            if j < p {
                assert(s2[j] == s[j]);
                assert(s[j].0.rank() < s[p].0.rank());
            } else {
                assert(s2[j] == s[j + 1]);
                assert(s[p].0.rank() < s[j + 1].0.rank());
            }
        }
        if m.dom().contains(k) && k != k0 {
            let j = choose|j: int| 0 <= j < s.len() && #[trigger] s[j].0 == k;
            if j < p {
                assert(s2[j] == s[j]);
            } else {
                assert(j != p);
                assert(s2[j - 1] == s[j]);
            }
        }
    }
    assert forall|k: K| #[trigger] m2.dom().contains(k) implies m2[k] == m.remove(k0)[k] by {
        let j = choose|j: int| 0 <= j < s2.len() && #[trigger] s2[j].0 == k;
        lemma_entries_map_at(s2, j);
        if j < p {
            assert(s2[j] == s[j]);
            lemma_entries_map_at(s, j);
        } else {
            assert(s2[j] == s[j + 1]);
            lemma_entries_map_at(s, j + 1);
        }
    }
}

/// The map of a sorted sequence has one key per entry.
pub proof fn lemma_entries_len<K: TreeKey, V>(s: Seq<(K, V)>)
    requires
        sorted_entries(s),
    ensures
        entries_map(s).dom().finite(),
        entries_map(s).len() == s.len(),
    decreases s.len(),
{
    if s.len() == 0 {
        assert(entries_map(s).dom() =~= Set::<K>::empty());
    } else {
        let s0 = s.drop_last();
        assert(sorted_entries(s0)) by {
            assert forall|a: int, b: int| 0 <= a < b < s0.len() implies #[trigger] s0[a].0.rank()
                < #[trigger] s0[b].0.rank() by {
                assert(s0[a] == s[a] && s0[b] == s[b]);
            }
        }
        lemma_entries_len(s0);
        assert(s0.insert(s0.len() as int, s.last()) =~= s);
        lemma_sorted_insert(s0, s0.len() as int, s.last());
    }
}

/// The first entry of a sorted sequence holds the smallest key of its map, the last entry the
/// largest.
pub proof fn lemma_sorted_ends<K: TreeKey, V>(s: Seq<(K, V)>)
    requires
        sorted_entries(s),
        s.len() > 0,
    ensures
        is_min_key(entries_map(s), s[0].0),
        entries_map(s)[s[0].0] == s[0].1,
        is_max_key(entries_map(s), s.last().0),
        entries_map(s)[s.last().0] == s.last().1,
{
    lemma_entries_map_at(s, 0);
    lemma_entries_map_at(s, s.len() - 1);
    assert forall|k: K| #[trigger] entries_map(s).dom().contains(k) implies s[0].0.rank()
        <= k.rank() && k.rank() <= s.last().0.rank() by {
        let j = choose|j: int| 0 <= j < s.len() && #[trigger] s[j].0 == k;
        if j > 0 {
            assert(s[0].0.rank() < s[j].0.rank());
        }
        if j < s.len() - 1 {
            assert(s[j].0.rank() < s[s.len() - 1].0.rank());
        }
    }
}

/// An entry of a sorted sequence that ranks above `k` while the entry before it does not holds
/// the next key after `k` in the map.
pub proof fn lemma_next_at<K: TreeKey, V>(s: Seq<(K, V)>, k: K, p: int)
    requires
        sorted_entries(s),
        0 <= p < s.len(),
        s[p].0.rank() > k.rank(),
        p > 0 ==> s[p - 1].0.rank() <= k.rank(),
    ensures
        is_next_key(entries_map(s), k, s[p].0),
        entries_map(s)[s[p].0] == s[p].1,
        has_key_above(entries_map(s), k),
{
    lemma_entries_map_at(s, p);
    assert forall|j: K| #[trigger] entries_map(s).dom().contains(j) && j.rank() > k.rank() implies j.rank()
        >= s[p].0.rank() by {
        let q = choose|q: int| 0 <= q < s.len() && #[trigger] s[q].0 == j;
        if q < p {
            if q < p - 1 {
                assert(s[q].0.rank() < s[p - 1].0.rank());
            }
        } else if q > p {
            assert(s[p].0.rank() < s[q].0.rank());
        }
    }
}

/// No entry of the sequence ranks above `k` exactly when no key of its map does.
pub proof fn lemma_none_above<K: TreeKey, V>(s: Seq<(K, V)>, k: K)
    ensures
        (forall|q: int| 0 <= q < s.len() ==> (#[trigger] s[q]).0.rank() <= k.rank()) <==> !has_key_above(
            entries_map(s),
            k,
        ),
{
    if has_key_above(entries_map(s), k) {
        let j = choose|j: K| #[trigger] entries_map(s).dom().contains(j) && j.rank() > k.rank();
        let q = choose|q: int| 0 <= q < s.len() && #[trigger] s[q].0 == j;
        assert(s[q].0.rank() > k.rank());
    }
    if exists|q: int| 0 <= q < s.len() && (#[trigger] s[q]).0.rank() > k.rank() {
        let q = choose|q: int| 0 <= q < s.len() && (#[trigger] s[q]).0.rank() > k.rank();
        assert(entries_map(s).dom().contains(s[q].0));
    }
}

/// An entry of a sorted sequence that ranks below `k` while the entry after it does not holds
/// the previous key before `k` in the map.
pub proof fn lemma_prev_at<K: TreeKey, V>(s: Seq<(K, V)>, k: K, p: int)
    requires
        sorted_entries(s),
        0 <= p < s.len(),
        s[p].0.rank() < k.rank(),
        p + 1 < s.len() ==> s[p + 1].0.rank() >= k.rank(),
    ensures
        is_prev_key(entries_map(s), k, s[p].0),
        entries_map(s)[s[p].0] == s[p].1,
        has_key_below(entries_map(s), k),
{
    lemma_entries_map_at(s, p);
    assert forall|j: K| #[trigger] entries_map(s).dom().contains(j) && j.rank() < k.rank() implies j.rank()
        <= s[p].0.rank() by {
        let q = choose|q: int| 0 <= q < s.len() && #[trigger] s[q].0 == j;
        if q > p {
            if q > p + 1 {
                assert(s[p + 1].0.rank() < s[q].0.rank());
            }
        } else if q < p {
            assert(s[q].0.rank() < s[p].0.rank());
        }
    }
}

/// No entry of the sequence ranks below `k` exactly when no key of its map does.
pub proof fn lemma_none_below<K: TreeKey, V>(s: Seq<(K, V)>, k: K)
    ensures
        (forall|q: int| 0 <= q < s.len() ==> (#[trigger] s[q]).0.rank() >= k.rank()) <==> !has_key_below(
            entries_map(s),
            k,
        ),
{
    if has_key_below(entries_map(s), k) {
        let j = choose|j: K| #[trigger] entries_map(s).dom().contains(j) && j.rank() < k.rank();
        let q = choose|q: int| 0 <= q < s.len() && #[trigger] s[q].0 == j;
        assert(s[q].0.rank() < k.rank());
    }
    if exists|q: int| 0 <= q < s.len() && (#[trigger] s[q]).0.rank() < k.rank() {
        let q = choose|q: int| 0 <= q < s.len() && (#[trigger] s[q]).0.rank() < k.rank();
        assert(entries_map(s).dom().contains(s[q].0));
    }
}

} // verus!
