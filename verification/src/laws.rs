//! Laws that tie the operations of the ordered maps together. Every tree kind states its
//! operations over a `Map` view (`insert`, `remove`, lookups) and over the neighbour
//! predicates of `trees::node`; these proof functions state what follows across calls.
use vstd::prelude::*;

use crate::exercises::leaderboard::{leaderboard_applied, LeaderboardReply, LeaderboardState};
use crate::exercises::median::{median_applied, MedianCommand, MedianReply, MedianStreamState};
use crate::key::TreeKey;
use crate::trees::node::{
    has_key_above, has_key_below, is_max_key, is_min_key, is_next_key, is_prev_key,
};

verus! {

/// A lookup after an insert finds the inserted value, and every other key keeps its entry.
pub proof fn law_read_after_write<K, V>(m: Map<K, V>, k: K, v: V, j: K)
    ensures
        m.insert(k, v).dom().contains(k),
        m.insert(k, v)[k] == v,
        j != k ==> (m.insert(k, v).dom().contains(j) == m.dom().contains(j)),
        j != k && m.dom().contains(j) ==> m.insert(k, v)[j] == m[j],
{
}

/// After a remove the key is absent, and every other key keeps its entry.
pub proof fn law_absent_after_remove<K, V>(m: Map<K, V>, k: K, j: K)
    ensures
        !m.remove(k).dom().contains(k),
        j != k ==> (m.remove(k).dom().contains(j) == m.dom().contains(j)),
        j != k && m.dom().contains(j) ==> m.remove(k)[j] == m[j],
{
}

/// Removing a key that an insert added restores the map.
pub proof fn law_remove_undoes_insert<K, V>(m: Map<K, V>, k: K, v: V)
    requires
        !m.dom().contains(k),
    ensures
        m.insert(k, v).remove(k) == m,
{
    assert(m.insert(k, v).remove(k) =~= m);
}

/// Inserting a key grows the number of entries by one exactly when the key was absent; removing
/// a present key shrinks it by one.
pub proof fn law_len_after_update<K, V>(m: Map<K, V>, k: K, v: V)
    requires
        m.dom().finite(),
    ensures
        m.insert(k, v).len() == if m.dom().contains(k) {
            m.len()
        } else {
            m.len() + 1
        },
        m.remove(k).len() == if m.dom().contains(k) {
            m.len() - 1
        } else {
            m.len() as int
        },
{
    if m.dom().contains(k) {
        assert(m.insert(k, v).dom() =~= m.dom());
    } else {
        assert(m.remove(k).dom() =~= m.dom());
    }
}

/// Stepping to the successor and then to the predecessor comes back: if `b` is the next key
/// after the present key `a`, then `a` is the previous key before `b`.
pub proof fn law_successor_then_predecessor<K: TreeKey, V>(m: Map<K, V>, a: K, b: K)
    requires
        m.dom().contains(a),
        is_next_key(m, a, b),
    ensures
        is_prev_key(m, b, a),
        has_key_below(m, b),
{
    assert forall|j: K| #[trigger] m.dom().contains(j) && j.rank() < b.rank() implies j.rank()
        <= a.rank() by {
        if j.rank() > a.rank() {
            assert(j.rank() >= b.rank());
        }
    }
}

/// Stepping to the predecessor and then to the successor comes back.
pub proof fn law_predecessor_then_successor<K: TreeKey, V>(m: Map<K, V>, a: K, b: K)
    requires
        m.dom().contains(a),
        is_prev_key(m, a, b),
    ensures
        is_next_key(m, b, a),
        has_key_above(m, b),
{
    assert forall|j: K| #[trigger] m.dom().contains(j) && j.rank() > b.rank() implies j.rank()
        >= a.rank() by {
        if j.rank() < a.rank() {
            assert(j.rank() <= b.rank());
        }
    }
}

/// The smallest key has no predecessor and the largest no successor; a walk by successors
/// visits keys in strictly increasing order.
pub proof fn law_ends_and_order<K: TreeKey, V>(m: Map<K, V>, lo: K, hi: K, a: K, b: K)
    ensures
        is_min_key(m, lo) ==> !has_key_below(m, lo),
        is_max_key(m, hi) ==> !has_key_above(m, hi),
        is_next_key(m, a, b) ==> a.rank() < b.rank(),
        is_prev_key(m, a, b) ==> b.rank() < a.rank(),
{
}

/// Keys are found by equality: two keys of equal rank are the same key, so a map holds at most
/// one entry per rank.
pub proof fn law_rank_identifies_key<K: TreeKey>(a: K, b: K)
    ensures
        a.rank() == b.rank() <==> a == b,
{
    if a.rank() == b.rank() {
        K::lemma_rank_injective(a, b);
    }
}

/// Adding a value that the stream lacks and then removing it leaves the stream as it was, and
/// the removal is answered as a removal.
pub proof fn law_median_add_then_remove(
    s0: MedianStreamState,
    s1: MedianStreamState,
    s2: MedianStreamState,
    x: i32,
    r1: MedianReply,
    r2: MedianReply,
)
    requires
        !s0.stream().contains(x),
        median_applied(s0, s1, MedianCommand::Add(x), r1),
        median_applied(s1, s2, MedianCommand::Remove(x), r2),
    ensures
        s2.stream() == s0.stream(),
        r2 is Removed,
{
    assert(s2.stream() =~= s0.stream());
}

/// Adding a new player and then removing it leaves the board as it was.
pub proof fn law_leaderboard_add_then_remove(
    s0: LeaderboardState,
    s1: LeaderboardState,
    s2: LeaderboardState,
    p: Seq<char>,
    x: i32,
    r1: LeaderboardReply,
    r2: LeaderboardReply,
)
    requires
        !s0.board().dom().contains(p),
        leaderboard_applied(s0, s1, (0, p, x as int), r1),
        leaderboard_applied(s1, s2, (2, p, 0), r2),
    ensures
        s2.board() == s0.board(),
        r2 is Removed,
{
    assert(s2.board() =~= s0.board());
}

/// Adding a player that is already on the board changes nothing and is refused.
pub proof fn law_leaderboard_add_existing(
    s0: LeaderboardState,
    s1: LeaderboardState,
    p: Seq<char>,
    x: i32,
    r: LeaderboardReply,
)
    requires
        s0.board().dom().contains(p),
        leaderboard_applied(s0, s1, (0, p, x as int), r),
    ensures
        s1.board() == s0.board(),
        s1.output == s0.output,
        r is AlreadyPresent,
{
}

/// The keys of `m` that rank at or above `k`: those that a walk in increasing key order from
/// `k` still visits.
pub open spec fn keys_from<K: TreeKey, V>(m: Map<K, V>, k: K) -> Set<K> {
    m.dom().filter(|j: K| j.rank() >= k.rank())
}

/// A walk in increasing key order visits every entry once: it starts from the smallest key
/// with all keys ahead of it, each step to the next larger key leaves one key fewer ahead, and
/// the walk ends at a key with only itself ahead. So a walk from the smallest key takes as many
/// steps as the map has entries.
pub proof fn law_walk_visits_every_entry<K: TreeKey, V>(m: Map<K, V>, k: K, d: K)
    requires
        m.dom().finite(),
        m.dom().contains(k),
    ensures
        is_min_key(m, k) ==> keys_from(m, k) == m.dom() && keys_from(m, k).len() == m.len(),
        is_next_key(m, k, d) ==> keys_from(m, k).len() == keys_from(m, d).len() + 1,
        !has_key_above(m, k) ==> keys_from(m, k).len() == 1,
{
    let from_k = keys_from(m, k);
    m.dom().lemma_len_filter(|j: K| j.rank() >= k.rank());
    if is_min_key(m, k) {
        assert(from_k =~= m.dom());
    }
    if is_next_key(m, k, d) {
        let from_d = keys_from(m, d);
        m.dom().lemma_len_filter(|j: K| j.rank() >= d.rank());
        assert forall|j: K| from_k.contains(j) <==> #[trigger] from_d.insert(k).contains(j) by {
            if from_k.contains(j) && j != k && j.rank() == k.rank() {
                K::lemma_rank_injective(j, k);
            }
        }
        assert(from_k =~= from_d.insert(k));
        assert(!from_d.contains(k));
    }
    if !has_key_above(m, k) {
        assert forall|j: K| from_k.contains(j) <==> #[trigger] set![k].contains(j) by {
            if from_k.contains(j) && j != k {
                if j.rank() == k.rank() {
                    K::lemma_rank_injective(j, k);
                }
                assert(m.dom().contains(j) && j.rank() > k.rank());
            }
        }
        assert(from_k =~= set![k]);
    }
}

} // verus!

