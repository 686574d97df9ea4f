//! A dynamic leaderboard: players with scores, ranked by score and, among equal scores, by name
//! (the later name first), with `ADD`, `UPDATE`, `REMOVE` and `TOP k` commands. A red-black
//! tree maps each score to the names holding it, and a list keeps each player's score.
use vstd::prelude::*;
use vstd::string::StringSliceAdditionalSpecFns;
use vstd::utf8::encode_utf8;

use crate::exercises::command::{
    i32_written, parse_command_parts, parse_i32, parse_usize, upper_ascii, usize_written, word_is,
    ws_words,
};
use crate::exercises::median::parsed_as;
use crate::exercises::names::{lemma_name_order, name_is, name_is_less, name_less};
use crate::exercises::text::{decimal_text, int_text};
use crate::trees::b_tree::insert::replace_at;
use crate::trees::node::{has_key_below, is_max_key, is_prev_key};
use crate::trees::red_black_tree::safe::RedBlackTree;

verus! {

/// A player and its score.
#[derive(Debug)]
pub struct LeaderboardEntry {
    pub player: String,
    pub score: i32,
}

/// A command of the leaderboard application.
#[derive(Debug)]
pub enum LeaderboardCommand {
    Add { player: String, score: i32 },
    Update { player: String, delta: i32 },
    Remove { player: String },
    Top { k: usize },
}

/// What a command asks for, as plain values: its kind (0 for `ADD`, 1 for `UPDATE`, 2 for
/// `REMOVE`, 3 for `TOP`), the player's name (empty for `TOP`), and its number (the score, the
/// change of score, 0, or `k`).
pub open spec fn request_of(c: LeaderboardCommand) -> (nat, Seq<char>, int) {
    match c {
        LeaderboardCommand::Add { player, score } => (0, player@, score as int),
        LeaderboardCommand::Update { player, delta } => (1, player@, delta as int),
        LeaderboardCommand::Remove { player } => (2, player@, 0),
        LeaderboardCommand::Top { k } => (3, Seq::empty(), k as int),
    }
}

/// The request that the words of a line spell, or the message for a line that spells none.
pub open spec fn leaderboard_request_of(words: Seq<Seq<char>>) -> Result<
    (nat, Seq<char>, int),
    Seq<char>,
> {
    if words.len() == 0 {
        Err("Command cannot be empty."@)
    } else {
        let w = upper_ascii(encode_utf8(words[0]));
        if w == "ADD".spec_bytes() {
            if words.len() != 3 {
                Err("ADD format: ADD player score"@)
            } else {
                match i32_written(encode_utf8(words[2])) {
                    Some(x) => Ok((0, words[1], x as int)),
                    None => Err("ADD expects score to be an integer."@),
                }
            }
        } else if w == "UPDATE".spec_bytes() {
            if words.len() != 3 {
                Err("UPDATE format: UPDATE player delta"@)
            } else {
                match i32_written(encode_utf8(words[2])) {
                    Some(x) => Ok((1, words[1], x as int)),
                    None => Err("UPDATE expects delta to be an integer."@),
                }
            }
        } else if w == "REMOVE".spec_bytes() {
            if words.len() != 2 {
                Err("REMOVE format: REMOVE player"@)
            } else {
                Ok((2, words[1], 0))
            }
        } else if w == "TOP".spec_bytes() {
            if words.len() != 2 {
                Err("TOP format: TOP k"@)
            } else {
                match usize_written(encode_utf8(words[1])) {
                    Some(k) => Ok((3, Seq::empty(), k as int)),
                    None => Err("TOP expects k to be a non-negative integer."@),
                }
            }
        } else {
            Err("Unknown command. Use ADD, UPDATE, REMOVE, or TOP."@)
        }
    }
}

impl LeaderboardCommand {
    /// Reads a command line: the command word in any ASCII case, then its arguments.
    pub fn parse(input: &str) -> (r: Result<LeaderboardCommand, String>)
        ensures
            match (r, leaderboard_request_of(ws_words(input@))) {
                (Ok(c), Ok(q)) => request_of(c) == q,
                (Err(e), Err(m)) => e@ == m,
                _ => false,
            },
    {
        let parts = match parse_command_parts(input) {
            Ok(p) => p,
            Err(e) => {
                return Err(e);
            },
        };
        if word_is(parts[0], "ADD") {
            if parts.len() != 3 {
                return Err(String::from_str("ADD format: ADD player score"));
            }
            match parse_i32(parts[2]) {
                Some(score) => Ok(LeaderboardCommand::Add { player: String::from_str(parts[1]), score }),
                None => Err(String::from_str("ADD expects score to be an integer.")),
            }
        } else if word_is(parts[0], "UPDATE") {
            if parts.len() != 3 {
                return Err(String::from_str("UPDATE format: UPDATE player delta"));
            }
            match parse_i32(parts[2]) {
                Some(delta) => Ok(
                    LeaderboardCommand::Update { player: String::from_str(parts[1]), delta },
                ),
                None => Err(String::from_str("UPDATE expects delta to be an integer.")),
            }
        } else if word_is(parts[0], "REMOVE") {
            if parts.len() != 2 {
                return Err(String::from_str("REMOVE format: REMOVE player"));
            }
            Ok(LeaderboardCommand::Remove { player: String::from_str(parts[1]) })
        } else if word_is(parts[0], "TOP") {
            if parts.len() != 2 {
                return Err(String::from_str("TOP format: TOP k"));
            }
            match parse_usize(parts[1]) {
                Some(k) => Ok(LeaderboardCommand::Top { k }),
                None => Err(String::from_str("TOP expects k to be a non-negative integer.")),
            }
        } else {
            Err(String::from_str("Unknown command. Use ADD, UPDATE, REMOVE, or TOP."))
        }
    }
}

/// Entry `a` ranks above entry `b`: a higher score, or the same score and a name that sorts
/// after `b`'s.
pub open spec fn ranks_above(a: (Seq<char>, i32), b: (Seq<char>, i32)) -> bool {
    a.1 > b.1 || (a.1 == b.1 && name_less(b.0, a.0))
}

/// `top` lists the first `k` entries of `board` from the top: as many as `k` allows, each an
/// entry of the board, strictly descending, and ranked above every entry left out.
pub open spec fn is_top(board: Map<Seq<char>, i32>, k: nat, top: Seq<(Seq<char>, i32)>) -> bool {
    &&& top.len() == (if k < board.len() {
        k
    } else {
        board.len()
    })
    &&& forall|i: int|
        0 <= i < top.len() ==> board.dom().contains((#[trigger] top[i]).0) && board[top[i].0]
            == top[i].1
    &&& forall|i: int, j: int| 0 <= i < j < top.len() ==> ranks_above(#[trigger] top[i], #[trigger] top[j])
    &&& forall|p: Seq<char>|
        #[trigger] board.dom().contains(p) ==> (exists|i: int| 0 <= i < top.len() && top[i].0 == p)
            || (forall|i: int| 0 <= i < top.len() ==> ranks_above(top[i], (p, board[p])))
}

/// The line that `TOP` prints for an entry: the name, a space and the score.
pub open spec fn top_line(e: (Seq<char>, i32)) -> Seq<char> {
    e.0 + " "@ + decimal_text(e.1 as int)
}

/// Names of a list in strictly descending order.
pub open spec fn desc_names(l: Seq<String>) -> bool {
    forall|i: int, j: int| 0 <= i < j < l.len() ==> name_less((#[trigger] l[j])@, (#[trigger] l[i])@)
}

/// The list `l` holds the name `q`.
pub open spec fn named(l: Seq<String>, q: Seq<char>) -> bool {
    exists|i: int| 0 <= i < l.len() && (#[trigger] l[i])@ == q
}

/// The player `p` is listed under score `s` in the tree's map `t`.
pub open spec fn listed(t: Map<i32, Vec<String>>, p: Seq<char>, s: i32) -> bool {
    t.dom().contains(s) && named(t[s]@, p)
}

/// The board gives player `p` the score `s`.
pub open spec fn has_score(board: Map<Seq<char>, i32>, p: Seq<char>, s: i32) -> bool {
    board.dom().contains(p) && board[p] == s
}

/// No two entries of the list name the same player.
pub open spec fn names_unique(sc: Seq<LeaderboardEntry>) -> bool {
    forall|i: int, j: int|
        0 <= i < j < sc.len() ==> (#[trigger] sc[i]).player@ != (#[trigger] sc[j]).player@
}

/// The board that a list of entries stands for: each named player with its score.
pub open spec fn board_of(sc: Seq<LeaderboardEntry>) -> Map<Seq<char>, i32> {
    Map::new(
        |p: Seq<char>| exists|i: int| 0 <= i < sc.len() && (#[trigger] sc[i]).player@ == p,
        |p: Seq<char>| sc[choose|i: int| 0 <= i < sc.len() && (#[trigger] sc[i]).player@ == p].score,
    )
}

/// With unique names, the board holds each entry of the list, and nothing else.
proof fn lemma_board_at(sc: Seq<LeaderboardEntry>, i: int)
    requires
        names_unique(sc),
        0 <= i < sc.len(),
    ensures
        board_of(sc).dom().contains(sc[i].player@),
        board_of(sc)[sc[i].player@] == sc[i].score,
{
    assert(board_of(sc).dom().contains(sc[i].player@));
    let j = choose|j: int| 0 <= j < sc.len() && (#[trigger] sc[j]).player@ == sc[i].player@;
    if j < i {
        assert(sc[j].player@ != sc[i].player@);
    } else if j > i {
        assert(sc[i].player@ != sc[j].player@);
    }
}

/// The board of a list with unique names has one player per entry.
proof fn lemma_board_len(sc: Seq<LeaderboardEntry>)
    requires
        names_unique(sc),
    ensures
        board_of(sc).dom().finite(),
        board_of(sc).len() == sc.len(),
{
    let names = sc.map_values(|e: LeaderboardEntry| e.player@);
    assert(names.no_duplicates()) by {
        assert forall|a: int, b: int| 0 <= a < names.len() && 0 <= b < names.len() && a != b implies names[a] != names[b] by {
            if a < b {
                assert(sc[a].player@ != sc[b].player@);
            } else {
                assert(sc[b].player@ != sc[a].player@);
            }
        }
    }
    names.unique_seq_to_set();
    assert(board_of(sc).dom() =~= names.to_set()) by {
        assert forall|p: Seq<char>| #[trigger] board_of(sc).dom().contains(p) implies names.to_set().contains(p) by {
            let i = choose|i: int| 0 <= i < sc.len() && (#[trigger] sc[i]).player@ == p;
            assert(names[i] == p);
        }
        assert forall|p: Seq<char>| #[trigger] names.to_set().contains(p) implies board_of(sc).dom().contains(p) by {
            let i = choose|i: int| 0 <= i < names.len() && names[i] == p;
            assert(sc[i].player@ == p);
        }
    }
}

/// Names in strictly descending order are pairwise different.
proof fn lemma_desc_unique(l: Seq<String>, a: int, b: int)
    requires
        desc_names(l),
        0 <= a < l.len(),
        0 <= b < l.len(),
        a != b,
    ensures
        l[a]@ != l[b]@,
{
    if a < b {
        assert(name_less(l[b]@, l[a]@));
        lemma_name_order(l[b]@, l[a]@, l[a]@);
    } else {
        assert(name_less(l[a]@, l[b]@));
        lemma_name_order(l[a]@, l[b]@, l[b]@);
    }
}

/// Inserts a new name into a list in descending name order, keeping the order.
fn list_insert(l: Vec<String>, p: String) -> (r: Vec<String>)
    requires
        desc_names(l@),
        forall|i: int| 0 <= i < l@.len() ==> (#[trigger] l@[i])@ != p@,
    ensures
        desc_names(r@),
        r@.len() == l@.len() + 1,
        forall|q: Seq<char>| #[trigger] named(r@, q) <==> (named(l@, q) || q == p@),
{
    let mut l = l;
    let mut j: usize = 0;
    while j < l.len() && name_is_less(p.as_str(), l[j].as_str())
        invariant
            j <= l@.len(),
            forall|i: int| 0 <= i < j ==> name_less(p@, (#[trigger] l@[i])@),
        decreases l@.len() - j,
    {
        j = j + 1;
    }
    let ghost l0 = l@;
    let ghost pv = p@;
    proof {
        if j < l0.len() {
            assert(!name_less(pv, l0[j as int]@));
            assert(l0[j as int]@ != pv);
            lemma_name_order(l0[j as int]@, pv, pv);
            assert(name_less(l0[j as int]@, pv));
        }
    }
    l.insert(j, p);
    proof {
        let r = l@;
        assert(r == l0.insert(j as int, r[j as int]));
        assert forall|a: int, b: int| 0 <= a < b < r.len() implies name_less((#[trigger] r[b])@, (#[trigger] r[a])@) by {
            if b < j {
                assert(r[a] == l0[a] && r[b] == l0[b]);
            } else if b == j {
                assert(r[a] == l0[a]);
            } else if a == j {
                assert(r[b] == l0[b - 1]);
                if b - 1 > j {
                    assert(name_less(l0[b - 1]@, l0[j as int]@));
                    lemma_name_order(l0[b - 1]@, l0[j as int]@, pv);
                }
            } else if a < j {
                assert(r[a] == l0[a] && r[b] == l0[b - 1]);
            } else {
                assert(r[a] == l0[a - 1] && r[b] == l0[b - 1]);
            }
        }
        assert forall|q: Seq<char>| #[trigger] named(r, q) <==> (named(l0, q) || q == pv) by {
            if named(r, q) {
                let i = choose|i: int| 0 <= i < r.len() && (#[trigger] r[i])@ == q;
                if i < j {
                    assert(r[i] == l0[i]);
                } else if i > j {
                    assert(r[i] == l0[i - 1]);
                }
            }
            if named(l0, q) {
                let i = choose|i: int| 0 <= i < l0.len() && (#[trigger] l0[i])@ == q;
                if i < j {
                    assert(r[i] == l0[i]);
                } else {
                    assert(r[i + 1] == l0[i]);
                }
            }
            if q == pv {
                assert(r[j as int]@ == q);
            }
        }
    }
    l
}

/// Removes a name from a list in descending name order, keeping the order.
fn list_remove(l: Vec<String>, p: &str) -> (r: Vec<String>)
    requires
        desc_names(l@),
        named(l@, p@),
    ensures
        desc_names(r@),
        r@.len() + 1 == l@.len(),
        forall|q: Seq<char>| #[trigger] named(r@, q) <==> (named(l@, q) && q != p@),
{
    let mut l = l;
    let ghost l0 = l@;
    let mut j: usize = 0;
    while j < l.len() && !name_is(l[j].as_str(), p)
        invariant
            j <= l@.len(),
            l@ == l0,
            forall|i: int| 0 <= i < j ==> (#[trigger] l@[i])@ != p@,
        decreases l@.len() - j,
    {
        j = j + 1;
    }
    proof {
        let w = choose|i: int| 0 <= i < l0.len() && (#[trigger] l0[i])@ == p@;
        assert(j < l0.len());
    }
    l.remove(j);
    proof {
        let r = l@;
        assert forall|a: int, b: int| 0 <= a < b < r.len() implies name_less((#[trigger] r[b])@, (#[trigger] r[a])@) by {
            if b < j {
                assert(r[a] == l0[a] && r[b] == l0[b]);
            } else if a < j {
                assert(r[a] == l0[a] && r[b] == l0[b + 1]);
            } else {
                assert(r[a] == l0[a + 1] && r[b] == l0[b + 1]);
            }
        }
        assert forall|q: Seq<char>| #[trigger] named(r, q) <==> (named(l0, q) && q != p@) by {
            if named(r, q) {
                let i = choose|i: int| 0 <= i < r.len() && (#[trigger] r[i])@ == q;
                if i < j {
                    assert(r[i] == l0[i]);
                    lemma_desc_unique(l0, i, j as int);
                } else {
                    assert(r[i] == l0[i + 1]);
                    lemma_desc_unique(l0, i + 1, j as int);
                }
            }
            if named(l0, q) && q != p@ {
                let i = choose|i: int| 0 <= i < l0.len() && (#[trigger] l0[i])@ == q;
                if i < j {
                    assert(r[i] == l0[i]);
                } else {
                    assert(i != j);
                    assert(r[i - 1] == l0[i]);
                }
            }
        }
    }
    l
}

/// Every score in the tree lists at least one name, in descending name order.
pub open spec fn lists_ok(t: Map<i32, Vec<String>>) -> bool {
    forall|s: i32| #[trigger] t.dom().contains(s) ==> t[s]@.len() > 0 && desc_names(t[s]@)
}

/// Lists the name `p` under score `s` in the tree.
fn tree_add(tree: &mut RedBlackTree<i32, Vec<String>>, s: i32, p: String)
    requires
        old(tree).wf(),
        old(tree)@.len() < usize::MAX,
        lists_ok(old(tree)@),
        !listed(old(tree)@, p@, s),
    ensures
        final(tree).wf(),
        lists_ok(final(tree)@),
        forall|q: Seq<char>, x: i32|
            #[trigger] listed(final(tree)@, q, x) <==> (listed(old(tree)@, q, x) || (q == p@ && x
                == s)),
{
    let ghost t0 = tree@;
    let ghost pv = p@;
    proof {
        tree.lemma_shape();
    }
    let l = match tree.remove_key(&s) {
        Some(l) => l,
        None => Vec::new(),
    };
    proof {
        assert(tree@.dom() =~= t0.dom().remove(s));
        vstd::set_lib::lemma_len_subset(tree@.dom(), t0.dom());
    }
    let ghost l0 = l@;
    proof {
        assert(t0.dom().contains(s) ==> l0 == t0[s]@);
        assert(!t0.dom().contains(s) ==> l0.len() == 0);
        assert forall|i: int| 0 <= i < l0.len() implies (#[trigger] l0[i])@ != pv by {
            assert(t0[s]@[i] == l0[i]);
        }
    }
    let l2 = list_insert(l, p);
    tree.insert_entry(s, l2);
    proof {
        let t1 = tree@;
        assert(t1 == t0.remove(s).insert(s, l2));
        assert forall|x: i32| #[trigger] t1.dom().contains(x) implies t1[x]@.len() > 0 && desc_names(t1[x]@) by {
            if x != s {
                assert(t0.dom().contains(x));
            }
        }
        assert forall|q: Seq<char>, x: i32|
            #[trigger] listed(t1, q, x) <==> (listed(t0, q, x) || (q == pv && x == s)) by {
            if x == s {
                if t0.dom().contains(s) {
                    assert(l0 == t0[s]@);
                }
                if listed(t1, q, x) {
                    let i = choose|i: int| 0 <= i < t1[s]@.len() && (#[trigger] t1[s]@[i])@ == q;
                    assert(l2@[i]@ == q);
                }
                if listed(t0, q, x) {
                    let i = choose|i: int| 0 <= i < t0[s]@.len() && (#[trigger] t0[s]@[i])@ == q;
                    assert(l0[i]@ == q);
                }
                assert(named(l2@, q) <==> (named(l0, q) || q == pv));
            }
        }
    }
}

/// Takes the name `p` off score `s` in the tree; a score left without names leaves the tree.
fn tree_drop(tree: &mut RedBlackTree<i32, Vec<String>>, s: i32, p: &str)
    requires
        old(tree).wf(),
        lists_ok(old(tree)@),
        listed(old(tree)@, p@, s),
    ensures
        final(tree).wf(),
        lists_ok(final(tree)@),
        final(tree)@.len() <= old(tree)@.len(),
        forall|q: Seq<char>, x: i32|
            #[trigger] listed(final(tree)@, q, x) <==> (listed(old(tree)@, q, x) && !(q == p@ && x
                == s)),
{
    let ghost t0 = tree@;
    proof {
        tree.lemma_shape();
    }
    let n0 = tree.len();
    let l = match tree.remove_key(&s) {
        Some(l) => l,
        None => {
            proof {
                assert(false);
            }
            Vec::new()
        },
    };
    proof {
        assert(tree@.dom() =~= t0.dom().remove(s));
        assert(tree@.len() == t0.len() - 1);
    }
    let ghost l0 = l@;
    proof {
        assert(l0 == t0[s]@);
        let i = choose|i: int| 0 <= i < t0[s]@.len() && (#[trigger] t0[s]@[i])@ == p@;
        assert(l0[i]@ == p@);
    }
    let l2 = list_remove(l, p);
    if l2.len() > 0 {
        tree.insert_entry(s, l2);
        proof {
            assert(tree@.dom() =~= t0.dom());
        }
    }
    proof {
        let t1 = tree@;
        assert forall|x: i32| #[trigger] t1.dom().contains(x) implies t1[x]@.len() > 0 && desc_names(t1[x]@) by {
            if x != s {
                assert(t0.dom().contains(x));
            }
        }
        assert forall|q: Seq<char>, x: i32|
            #[trigger] listed(t1, q, x) <==> (listed(t0, q, x) && !(q == p@ && x == s)) by {
            if x == s {
                if listed(t1, q, x) {
                    let i = choose|i: int| 0 <= i < t1[s]@.len() && (#[trigger] t1[s]@[i])@ == q;
                    assert(l2@[i]@ == q);
                }
                if listed(t0, q, x) {
                    let i = choose|i: int| 0 <= i < t0[s]@.len() && (#[trigger] t0[s]@[i])@ == q;
                    assert(l0[i]@ == q);
                }
                assert(named(l2@, q) <==> (named(l0, q) && q != p@));
            }
        }
    }
}

/// Adding an entry for a new player adds it to the board.
proof fn lemma_board_push(sc: Seq<LeaderboardEntry>, e: LeaderboardEntry)
    requires
        names_unique(sc),
        !board_of(sc).dom().contains(e.player@),
    ensures
        names_unique(sc.push(e)),
        board_of(sc.push(e)) =~= board_of(sc).insert(e.player@, e.score),
{
    let sc2 = sc.push(e);
    assert forall|i: int, j: int| 0 <= i < j < sc2.len() implies (#[trigger] sc2[i]).player@
        != (#[trigger] sc2[j]).player@ by {
        if j == sc.len() {
            assert(sc2[i] == sc[i]);
            if sc[i].player@ == e.player@ {
                assert(board_of(sc).dom().contains(sc[i].player@));
            }
        } else {
            assert(sc2[i] == sc[i] && sc2[j] == sc[j]);
        }
    }
    let b = board_of(sc);
    let b2 = board_of(sc2);
    assert forall|q: Seq<char>| #[trigger] b2.dom().contains(q) <==> b.insert(e.player@, e.score).dom().contains(q) by {
        if b2.dom().contains(q) {
            let i = choose|i: int| 0 <= i < sc2.len() && (#[trigger] sc2[i]).player@ == q;
            if i < sc.len() {
                assert(sc[i].player@ == q);
            }
        }
        if b.dom().contains(q) {
            let i = choose|i: int| 0 <= i < sc.len() && (#[trigger] sc[i]).player@ == q;
            assert(sc2[i].player@ == q);
        }
        if q == e.player@ {
            assert(sc2[sc.len() as int].player@ == q);
        }
    }
    assert forall|q: Seq<char>| #[trigger] b2.dom().contains(q) implies b2[q] == b.insert(e.player@, e.score)[q] by {
        let i = choose|i: int| 0 <= i < sc2.len() && (#[trigger] sc2[i]).player@ == q;
        lemma_board_at(sc2, i);
        if i < sc.len() {
            assert(sc2[i] == sc[i]);
            lemma_board_at(sc, i);
        }
    }
}

/// Changing the score of entry `i` changes the score of its player on the board.
proof fn lemma_board_set(sc: Seq<LeaderboardEntry>, i: int, e: LeaderboardEntry)
    requires
        names_unique(sc),
        0 <= i < sc.len(),
        e.player@ == sc[i].player@,
    ensures
        names_unique(sc.update(i, e)),
        board_of(sc.update(i, e)) =~= board_of(sc).insert(e.player@, e.score),
{
    let sc2 = sc.update(i, e);
    assert forall|a: int, b: int| 0 <= a < b < sc2.len() implies (#[trigger] sc2[a]).player@
        != (#[trigger] sc2[b]).player@ by {
        assert(sc2[a].player@ == sc[a].player@ && sc2[b].player@ == sc[b].player@);
    }
    let b = board_of(sc);
    let b2 = board_of(sc2);
    lemma_board_at(sc, i);
    assert forall|q: Seq<char>| #[trigger] b2.dom().contains(q) <==> b.dom().contains(q) by {
        if b2.dom().contains(q) {
            let j = choose|j: int| 0 <= j < sc2.len() && (#[trigger] sc2[j]).player@ == q;
            assert(sc[j].player@ == q);
        }
        if b.dom().contains(q) {
            let j = choose|j: int| 0 <= j < sc.len() && (#[trigger] sc[j]).player@ == q;
            assert(sc2[j].player@ == q);
        }
    }
    assert forall|q: Seq<char>| #[trigger] b2.dom().contains(q) implies b2[q] == b.insert(e.player@, e.score)[q] by {
        let j = choose|j: int| 0 <= j < sc2.len() && (#[trigger] sc2[j]).player@ == q;
        lemma_board_at(sc2, j);
        if j != i {
            lemma_board_at(sc, j);
        }
    }
}

/// Removing entry `i` removes its player from the board.
proof fn lemma_board_remove(sc: Seq<LeaderboardEntry>, i: int)
    requires
        names_unique(sc),
        0 <= i < sc.len(),
    ensures
        names_unique(sc.remove(i)),
        board_of(sc.remove(i)) =~= board_of(sc).remove(sc[i].player@),
{
    let sc2 = sc.remove(i);
    let p = sc[i].player@;
    assert forall|a: int, b: int| 0 <= a < b < sc2.len() implies (#[trigger] sc2[a]).player@
        != (#[trigger] sc2[b]).player@ by {
        let a0 = if a < i { a } else { a + 1 };
        let b0 = if b < i { b } else { b + 1 };
        assert(sc2[a] == sc[a0] && sc2[b] == sc[b0]);
    }
    let b = board_of(sc);
    let b2 = board_of(sc2);
    assert forall|q: Seq<char>| #[trigger] b2.dom().contains(q) <==> b.remove(p).dom().contains(q) by {
        if b2.dom().contains(q) {
            let j = choose|j: int| 0 <= j < sc2.len() && (#[trigger] sc2[j]).player@ == q;
            let j0 = if j < i { j } else { j + 1 };
            assert(sc2[j] == sc[j0]);
            if j0 < i {
                assert(sc[j0].player@ != sc[i].player@);
            } else {
                assert(sc[i].player@ != sc[j0].player@);
            }
        }
        if b.dom().contains(q) && q != p {
            let j = choose|j: int| 0 <= j < sc.len() && (#[trigger] sc[j]).player@ == q;
            if j < i {
                assert(sc2[j] == sc[j]);
            } else {
                assert(j != i);
                assert(sc2[j - 1] == sc[j]);
            }
        }
    }
    assert forall|q: Seq<char>| #[trigger] b2.dom().contains(q) implies b2[q] == b.remove(p)[q] by {
        let j = choose|j: int| 0 <= j < sc2.len() && (#[trigger] sc2[j]).player@ == q;
        lemma_board_at(sc2, j);
        let j0 = if j < i { j } else { j + 1 };
        assert(sc2[j] == sc[j0]);
        lemma_board_at(sc, j0);
    }
}

/// Some entry of `taken` is for the player `q`.
pub open spec fn taken_has(taken: Seq<(Seq<char>, i32)>, q: Seq<char>) -> bool {
    exists|i: int| 0 <= i < taken.len() && (#[trigger] taken[i]).0 == q
}

/// Strictly descending entries of a board name different players, as many as there are
/// entries, all of them on the board.
proof fn lemma_taken_count(board: Map<Seq<char>, i32>, taken: Seq<(Seq<char>, i32)>)
    requires
        board.dom().finite(),
        forall|i: int| 0 <= i < taken.len() ==> has_score(board, (#[trigger] taken[i]).0, taken[i].1),
        forall|i: int, j: int| 0 <= i < j < taken.len() ==> ranks_above(#[trigger] taken[i], #[trigger] taken[j]),
    ensures
        taken.len() <= board.len(),
        (forall|q: Seq<char>| #[trigger] board.dom().contains(q) ==> taken_has(taken, q)) ==> taken.len() == board.len(),
{
    let names = taken.map_values(|e: (Seq<char>, i32)| e.0);
    assert(names.no_duplicates()) by {
        assert forall|a: int, b: int| 0 <= a < names.len() && 0 <= b < names.len() && a != b implies names[a] != names[b] by {
            let (x, y) = if a < b { (a, b) } else { (b, a) };
            assert(ranks_above(taken[x], taken[y]));
            assert(has_score(board, taken[x].0, taken[x].1));
            assert(has_score(board, taken[y].0, taken[y].1));
            if taken[x].0 == taken[y].0 {
                lemma_name_order(taken[x].0, taken[x].0, taken[x].0);
            }
        }
    }
    names.unique_seq_to_set();
    assert(names.to_set().subset_of(board.dom())) by {
        assert forall|q: Seq<char>| #[trigger] names.to_set().contains(q) implies board.dom().contains(q) by {
            let i = choose|i: int| 0 <= i < names.len() && names[i] == q;
            assert(has_score(board, taken[i].0, taken[i].1));
        }
    }
    vstd::set_lib::lemma_len_subset(names.to_set(), board.dom());
    if forall|q: Seq<char>| #[trigger] board.dom().contains(q) ==> taken_has(taken, q) {
        assert(names.to_set() =~= board.dom()) by {
            assert forall|q: Seq<char>| #[trigger] board.dom().contains(q) implies names.to_set().contains(q) by {
                assert(taken_has(taken, q));
                let i = choose|i: int| 0 <= i < taken.len() && (#[trigger] taken[i]).0 == q;
                assert(names[i] == q);
            }
        }
    }
}

/// What a command did, for the application to report.
#[derive(Debug)]
pub enum LeaderboardReply {
    /// The player joined with this score.
    Added { player: String, score: i32 },
    /// `ADD` named a player already on the board.
    AlreadyPresent(String),
    /// The player's score changed from `from` to `to`.
    Updated { player: String, from: i32, to: i32 },
    /// `UPDATE` named a player not on the board.
    UpdateMissing(String),
    /// The player left the board.
    Removed(String),
    /// `REMOVE` named a player not on the board.
    RemoveMissing(String),
    /// `TOP k` printed its lines.
    TopDone(usize),
}

/// The state of the leaderboard application: the tree from scores to names, the players'
/// scores, the printed lines and the command being typed.
pub struct LeaderboardState {
    pub tree: RedBlackTree<i32, Vec<String>>,
    pub scores: Vec<LeaderboardEntry>,
    pub output: Vec<String>,
    pub input: String,
}

impl LeaderboardState {
    /// The tree and the scores agree: every score in the tree lists its players in descending
    /// name order, and a player is listed under a score exactly when the scores give it that
    /// score; no player has two scores.
    pub open spec fn wf(&self) -> bool {
        &&& self.tree.wf()
        &&& names_unique(self.scores@)
        &&& forall|s: i32|
            #[trigger] self.tree@.dom().contains(s) ==> self.tree@[s]@.len() > 0 && desc_names(
                self.tree@[s]@,
            )
        &&& forall|p: Seq<char>, s: i32|
            #![trigger listed(self.tree@, p, s)]
            #![trigger has_score(board_of(self.scores@), p, s)]
            listed(self.tree@, p, s) <==> has_score(board_of(self.scores@), p, s)
    }

    /// The board: each player on it with its score.
    pub open spec fn board(&self) -> Map<Seq<char>, i32> {
        board_of(self.scores@)
    }

    /// An empty board, no output and no input.
    pub fn new() -> (r: Self)
        ensures
            r.wf(),
            r.board() == Map::<Seq<char>, i32>::empty(),
            r.output@.len() == 0,
            r.input@.len() == 0,
    {
        let r = LeaderboardState {
            tree: RedBlackTree::new(),
            scores: Vec::new(),
            output: Vec::new(),
            input: String::new(),
        };
        proof {
            assert(r.board() =~= Map::<Seq<char>, i32>::empty());
        }
        r
    }
}

/// Descending entries of the board: each on the board, each ranked above the later ones.
pub open spec fn top_prefix(board: Map<Seq<char>, i32>, taken: Seq<(Seq<char>, i32)>) -> bool {
    &&& forall|i: int| 0 <= i < taken.len() ==> has_score(board, (#[trigger] taken[i]).0, taken[i].1)
    &&& forall|i: int, j: int| 0 <= i < j < taken.len() ==> ranks_above(#[trigger] taken[i], #[trigger] taken[j])
}

/// Every entry of the board that `taken` leaves out ranks below all of `taken`.
pub open spec fn covers_rest(board: Map<Seq<char>, i32>, taken: Seq<(Seq<char>, i32)>) -> bool {
    forall|q: Seq<char>|
        #[trigger] board.dom().contains(q) ==> taken_has(taken, q) || (forall|i: int|
            0 <= i < taken.len() ==> ranks_above(taken[i], (q, board[q])))
}

impl LeaderboardState {
    /// The index and score of player `p`, if it is on the board.
    fn find_player(&self, p: &str) -> (r: Option<(usize, i32)>)
        requires
            self.wf(),
        ensures
            r is Some <==> self.board().dom().contains(p@),
            r matches Some((i, s)) ==> i < self.scores@.len() && self.scores@[i as int].player@
                == p@ && self.scores@[i as int].score == s && self.board()[p@] == s,
    {
        let mut i: usize = 0;
        while i < self.scores.len()
            invariant
                self.wf(),
                i <= self.scores@.len(),
                forall|j: int| 0 <= j < i ==> (#[trigger] self.scores@[j]).player@ != p@,
            decreases self.scores@.len() - i,
        {
            if name_is(self.scores[i].player.as_str(), p) {
                proof {
                    lemma_board_at(self.scores@, i as int);
                }
                return Some((i, self.scores[i].score));
            }
            i = i + 1;
        }
        None
    }

    /// The lines of the first `k` entries from the top: name and score.
    fn top_k(&self, k: usize) -> (r: Vec<String>)
        requires
            self.wf(),
        ensures
            exists|top: Seq<(Seq<char>, i32)>|
                is_top(self.board(), k as nat, top) && r@.len() == top.len() && forall|i: int|
                    0 <= i < top.len() ==> (#[trigger] r@[i])@ == top_line(top[i]),
    {
        let ghost b = self.board();
        let ghost t = self.tree@;
        proof {
            self.tree.lemma_shape();
            lemma_board_len(self.scores@);
        }
        let mut result: Vec<String> = Vec::new();
        let ghost mut taken: Seq<(Seq<char>, i32)> = Seq::empty();
        let mut cur = self.tree.max_cursor();
        proof {
            if cur is Some {
                let c = cur->0;
                assert forall|q: Seq<char>| b.dom().contains(q) && b[q] > c.key_at() implies taken_has(taken, q) by {
                    assert(has_score(b, q, b[q]));
                    assert(listed(t, q, b[q]));
                }
            } else {
                assert forall|q: Seq<char>| #[trigger] b.dom().contains(q) implies taken_has(taken, q) by {
                    assert(has_score(b, q, b[q]));
                    assert(listed(t, q, b[q]));
                }
            }
        }
        loop
            invariant_except_break
                cur matches Some(c) ==> c.wf() && c.tree_map() == t && t.dom().contains(c.key_at())
                    && t[c.key_at()] == c.value_at() && (forall|i: int|
                    0 <= i < taken.len() ==> (#[trigger] taken[i]).1 > c.key_at()) && (forall|
                    q: Seq<char>,
                | #[trigger] b.dom().contains(q) && b[q] > c.key_at() ==> taken_has(taken, q)),
                cur is None ==> forall|q: Seq<char>| #[trigger] b.dom().contains(q) ==> taken_has(taken, q),
            invariant
                self.wf(),
                t == self.tree@,
                b == self.board(),
                b.dom().finite(),
                result@.len() == taken.len(),
                taken.len() <= k,
                forall|i: int| 0 <= i < taken.len() ==> (#[trigger] result@[i])@ == top_line(taken[i]),
                top_prefix(b, taken),
                taken.len() <= b.len(),
            ensures
                result@.len() == taken.len(),
                taken.len() <= k,
                forall|i: int| 0 <= i < taken.len() ==> (#[trigger] result@[i])@ == top_line(taken[i]),
                top_prefix(b, taken),
                covers_rest(b, taken),
                taken.len() == k || forall|q: Seq<char>| #[trigger] b.dom().contains(q) ==> taken_has(taken, q),
            decreases b.len() - taken.len(),
        {
            if result.len() >= k {
                proof {
                    assert forall|q: Seq<char>| #[trigger] b.dom().contains(q) implies taken_has(taken, q) || (forall|i: int|
                        0 <= i < taken.len() ==> ranks_above(taken[i], (q, b[q]))) by {
                        if cur is Some {
                            let c = cur->0;
                            if b[q] > c.key_at() {
                            }
                        }
                    }
                }
                break;
            }
            let c = match cur {
                None => {
                    break;
                },
                Some(c) => c,
            };
            let s = *c.key();
            let l = c.value();
            let ghost base = taken;
            let mut j: usize = 0;
            while j < l.len() && result.len() < k
                invariant
                    self.wf(),
                    t == self.tree@,
                    b == self.board(),
                    t.dom().contains(s),
                    l@ == t[s]@,
                    lists_ok(t),
                    j <= l@.len(),
                    taken.len() == base.len() + j,
                    forall|i: int| 0 <= i < base.len() ==> taken[i] == base[i],
                    forall|m: int| 0 <= m < j ==> #[trigger] taken[base.len() + m] == (l@[m]@, s),
                    forall|i: int| 0 <= i < base.len() ==> (#[trigger] base[i]).1 > s,
                    result@.len() == taken.len(),
                    taken.len() <= k,
                    forall|i: int| 0 <= i < taken.len() ==> (#[trigger] result@[i])@ == top_line(taken[i]),
                    top_prefix(b, taken),
                decreases l@.len() - j,
            {
                let name: &String = &l[j];
                let mut line = name.clone();
                line.append(" ");
                let score_text = int_text(s);
                line.append(score_text.as_str());
                result.push(line);
                proof {
                    let e = (l@[j as int]@, s);
                    assert(listed(t, e.0, s)) by {
                        assert(t[s]@[j as int]@ == e.0);
                    }
                    assert(has_score(b, e.0, s));
                    let old_taken = taken;
                    taken = taken.push(e);
                    assert forall|i: int, jj: int| 0 <= i < jj < taken.len() implies ranks_above(#[trigger] taken[i], #[trigger] taken[jj]) by {
                        if jj == taken.len() - 1 {
                            if i >= base.len() {
                                let m = i - base.len();
                                assert(taken[base.len() + m] == (l@[m]@, s));
                                assert(name_less(l@[j as int]@, l@[m]@));
                            } else {
                                assert(taken[i] == base[i]);
                            }
                        } else {
                            assert(taken[i] == old_taken[i] && taken[jj] == old_taken[jj]);
                        }
                    }
                    assert forall|i: int| 0 <= i < taken.len() implies has_score(b, (#[trigger] taken[i]).0, taken[i].1) by {
                        if i < old_taken.len() {
                            assert(taken[i] == old_taken[i]);
                        }
                    }
                    assert forall|m: int| 0 <= m < j + 1 implies #[trigger] taken[base.len() + m] == (l@[m]@, s) by {
                        if m < j {
                            assert(taken[base.len() + m] == old_taken[base.len() + m]);
                        }
                    }
                    assert forall|i: int| 0 <= i < taken.len() implies (#[trigger] result@[i])@ == top_line(taken[i]) by {
                        if i < old_taken.len() {
                            assert(taken[i] == old_taken[i]);
                        }
                    }
                }
                j = j + 1;
            }
            if result.len() >= k {
                proof {
                    lemma_taken_count(b, taken);
                    assert forall|q: Seq<char>| #[trigger] b.dom().contains(q) implies taken_has(taken, q) || (forall|i: int|
                        0 <= i < taken.len() ==> ranks_above(taken[i], (q, b[q]))) by {
                        let x = b[q];
                        if x > s {
                            assert(taken_has(base, q));
                            let i = choose|i: int| 0 <= i < base.len() && (#[trigger] base[i]).0 == q;
                            assert(taken[i] == base[i]);
                        } else if x == s {
                            assert(has_score(b, q, s));
                            assert(listed(t, q, s));
                            let m2 = choose|m2: int| 0 <= m2 < t[s]@.len() && (#[trigger] t[s]@[m2])@ == q;
                            if m2 < j {
                                assert(taken[base.len() + m2] == (l@[m2]@, s));
                            } else {
                                assert forall|i: int| 0 <= i < taken.len() implies ranks_above(taken[i], (q, b[q])) by {
                                    if i >= base.len() {
                                        let m = i - base.len();
                                        assert(taken[base.len() + m] == (l@[m]@, s));
                                        assert(name_less(l@[m2]@, l@[m]@));
                                    } else {
                                        assert(taken[i] == base[i]);
                                    }
                                }
                            }
                        } else {
                            assert forall|i: int| 0 <= i < taken.len() implies ranks_above(taken[i], (q, b[q])) by {
                                if i >= base.len() {
                                    let m = i - base.len();
                                    assert(taken[base.len() + m] == (l@[m]@, s));
                                } else {
                                    assert(taken[i] == base[i]);
                                }
                            }
                        }
                    }
                }
                break;
            }
            let next = c.predecessor();
            proof {
                assert(j == l@.len());
                assert forall|q: Seq<char>| #[trigger] b.dom().contains(q) && b[q] >= s implies taken_has(taken, q) by {
                    if b[q] > s {
                        let i = choose|i: int| 0 <= i < base.len() && (#[trigger] base[i]).0 == q;
                        assert(taken[i] == base[i]);
                    } else {
                        assert(has_score(b, q, s));
                        assert(listed(t, q, s));
                        let m2 = choose|m2: int| 0 <= m2 < t[s]@.len() && (#[trigger] t[s]@[m2])@ == q;
                        assert(taken[base.len() + m2] == (l@[m2]@, s));
                    }
                }
                assert forall|i: int| 0 <= i < taken.len() implies (#[trigger] taken[i]).1 >= s by {
                    if i >= base.len() {
                        let m = i - base.len();
                        assert(taken[base.len() + m] == (l@[m]@, s));
                    } else {
                        assert(taken[i] == base[i]);
                    }
                }
                if next is Some {
                    let c2 = next->0;
                    {
                        assert forall|q: Seq<char>| #[trigger] b.dom().contains(q) && b[q] > c2.key_at() implies taken_has(taken, q) by {
                            assert(has_score(b, q, b[q]));
                            assert(listed(t, q, b[q]));
                            assert(t.dom().contains(b[q]));
                            if b[q] < s {
                                assert(b[q] <= c2.key_at());
                            }
                        }
                    }
                } else {
                    {
                        assert forall|q: Seq<char>| #[trigger] b.dom().contains(q) implies taken_has(taken, q) by {
                            assert(has_score(b, q, b[q]));
                            assert(listed(t, q, b[q]));
                            assert(t.dom().contains(b[q]));
                            if b[q] < s {
                                assert(has_key_below(t, s));
                            }
                        }
                    }
                }
                lemma_taken_count(b, taken);
            }
            cur = next;
        }
        proof {
            lemma_taken_count(b, taken);
            assert(is_top(b, k as nat, taken));
        }
        result
    }
}

impl LeaderboardState {
    /// Carries out one command.
    pub fn apply(&mut self, command: LeaderboardCommand) -> (r: LeaderboardReply)
        requires
            old(self).wf(),
            old(self).tree@.len() < usize::MAX,
            score_fits(old(self).board(), request_of(command)),
        ensures
            final(self).wf(),
            leaderboard_applied(*old(self), *final(self), request_of(command), r),
    {
        proof {
            self.tree.lemma_shape();
        }
        let ghost b0 = self.board();
        let ghost t0 = self.tree@;
        let ghost q = request_of(command);
        match command {
            LeaderboardCommand::Add { player, score } => {
                if self.find_player(player.as_str()).is_some() {
                    return LeaderboardReply::AlreadyPresent(player);
                }
                proof {
                    assert(!listed(t0, player@, score)) by {
                        if listed(t0, player@, score) {
                            assert(has_score(b0, player@, score));
                        }
                    }
                }
                tree_add(&mut self.tree, score, player.clone());
                let ghost sc0 = self.scores@;
                self.scores.push(LeaderboardEntry { player: player.clone(), score });
                proof {
                    let e = self.scores@.last();
                    assert(self.scores@ == sc0.push(e));
                    lemma_board_push(sc0, e);
                    let b1 = self.board();
                    assert forall|q: Seq<char>, x: i32| #[trigger] listed(self.tree@, q, x) <==> has_score(b1, q, x) by {
                        if q == player@ {
                            assert(listed(t0, q, x) <==> has_score(b0, q, x));
                        } else {
                            assert(listed(t0, q, x) <==> has_score(b0, q, x));
                        }
                    }
                }
                proof {
                    assert((score as int) as i32 == score);
                }
                LeaderboardReply::Added { player, score }
            },
            LeaderboardCommand::Update { player, delta } => {
                match self.find_player(player.as_str()) {
                    None => LeaderboardReply::UpdateMissing(player),
                    Some((i, current)) => {
                        proof {
                            assert(has_score(b0, player@, current));
                            assert(listed(t0, player@, current));
                        }
                        tree_drop(&mut self.tree, current, player.as_str());
                        let new_score = current + delta;
                        let ghost t1 = self.tree@;
                        proof {
                            assert(!listed(t1, player@, new_score)) by {
                                if listed(t1, player@, new_score) {
                                    assert(listed(t0, player@, new_score));
                                    assert(has_score(b0, player@, new_score));
                                }
                            }
                        }
                        tree_add(&mut self.tree, new_score, player.clone());
                        let ghost sc0 = self.scores@;
                        let old_entry = self.scores.remove(i);
                        let LeaderboardEntry { player: name, score: _ } = old_entry;
                        self.scores.insert(i, LeaderboardEntry { player: name, score: new_score });
                        proof {
                            let e = self.scores@[i as int];
                            assert(self.scores@ =~= sc0.update(i as int, e));
                            lemma_board_set(sc0, i as int, e);
                            let b1 = self.board();
                            assert forall|q: Seq<char>, x: i32| #[trigger] listed(self.tree@, q, x) <==> has_score(b1, q, x) by {
                                assert(listed(t0, q, x) <==> has_score(b0, q, x));
                            }
                        }
                        LeaderboardReply::Updated { player, from: current, to: new_score }
                    },
                }
            },
            LeaderboardCommand::Remove { player } => {
                match self.find_player(player.as_str()) {
                    None => LeaderboardReply::RemoveMissing(player),
                    Some((i, current)) => {
                        proof {
                            assert(has_score(b0, player@, current));
                            assert(listed(t0, player@, current));
                        }
                        tree_drop(&mut self.tree, current, player.as_str());
                        let ghost sc0 = self.scores@;
                        self.scores.remove(i);
                        proof {
                            lemma_board_remove(sc0, i as int);
                            let b1 = self.board();
                            assert forall|q: Seq<char>, x: i32| #[trigger] listed(self.tree@, q, x) <==> has_score(b1, q, x) by {
                                assert(listed(t0, q, x) <==> has_score(b0, q, x));
                            }
                        }
                        LeaderboardReply::Removed(player)
                    },
                }
            },
            LeaderboardCommand::Top { k } => {
                let lines = self.top_k(k);
                let ghost o0 = self.output@;
                let ghost lv = lines@;
                if lines.len() == 0 {
                    self.output.push(String::from_str("(no players)"));
                } else {
                    let mut lines = lines;
                    self.output.append(&mut lines);
                }
                self.output.push(String::new());
                proof {
                    let top = choose|top: Seq<(Seq<char>, i32)>|
                        is_top(b0, k as nat, top) && lv.len() == top.len() && forall|i: int|
                            0 <= i < top.len() ==> (#[trigger] lv[i])@ == top_line(top[i]);
                    assert(top_printed(o0, self.output@, top));
                    assert(q.2 as nat == k as nat);
                    assert(is_top(b0, q.2 as nat, top));
                }
                LeaderboardReply::TopDone(k)
            },
        }
    }

    /// Reads and carries out one command line; a line that spells no command changes nothing
    /// and gives its message.
    pub fn execute_command(&mut self, raw: &str) -> (r: Result<LeaderboardReply, String>)
        requires
            old(self).wf(),
            old(self).tree@.len() < usize::MAX,
            match leaderboard_request_of(ws_words(raw@)) {
                Ok(q) => score_fits(old(self).board(), q),
                Err(_) => true,
            },
        ensures
            final(self).wf(),
            match leaderboard_request_of(ws_words(raw@)) {
                Err(m) => r matches Err(e) && e@ == m && final(self).board() == old(self).board()
                    && final(self).output == old(self).output,
                Ok(q) => r matches Ok(x) && leaderboard_applied(*old(self), *final(self), q, x),
            },
    {
        match LeaderboardCommand::parse(raw) {
            Err(e) => Err(e),
            Ok(command) => Ok(self.apply(command)),
        }
    }
}

/// An `UPDATE` request leaves its player's score within `i32`.
pub open spec fn score_fits(board: Map<Seq<char>, i32>, q: (nat, Seq<char>, int)) -> bool {
    (q.0 == 1 && board.dom().contains(q.1)) ==> i32::MIN <= board[q.1] + q.2 <= i32::MAX
}

/// What carrying out request `q` (see `request_of`) does to the state and answers.
pub open spec fn leaderboard_applied(
    before: LeaderboardState,
    after: LeaderboardState,
    q: (nat, Seq<char>, int),
    r: LeaderboardReply,
) -> bool {
    let b = before.board();
    let present = b.dom().contains(q.1);
    &&& after.input == before.input
    &&& if q.0 == 3 {
        &&& after.board() == b
        &&& r matches LeaderboardReply::TopDone(x) && x == q.2
        &&& exists|top: Seq<(Seq<char>, i32)>|
            #![trigger is_top(b, q.2 as nat, top)]
            is_top(b, q.2 as nat, top) && top_printed(before.output@, after.output@, top)
    } else {
        &&& after.output == before.output
        &&& if q.0 == 0 {
            if present {
                after.board() == b && (r matches LeaderboardReply::AlreadyPresent(p) && p@ == q.1)
            } else {
                &&& after.board() == b.insert(q.1, q.2 as i32)
                &&& r matches LeaderboardReply::Added { player: p, score: x } && p@ == q.1 && x
                    == q.2
            }
        } else if q.0 == 1 {
            if present {
                &&& after.board() == b.insert(q.1, (b[q.1] + q.2) as i32)
                &&& r matches LeaderboardReply::Updated { player: p, from, to } && p@ == q.1
                    && from == b[q.1] && to == from + q.2
            } else {
                after.board() == b && (r matches LeaderboardReply::UpdateMissing(p) && p@ == q.1)
            }
        } else if present {
            after.board() == b.remove(q.1) && (r matches LeaderboardReply::Removed(p) && p@ == q.1)
        } else {
            after.board() == b && (r matches LeaderboardReply::RemoveMissing(p) && p@ == q.1)
        }
    }
}

/// `after` is `before` followed by the lines of `top` (or a `(no players)` line when it is
/// empty) and an empty line.
pub open spec fn top_printed(before: Seq<String>, after: Seq<String>, top: Seq<(Seq<char>, i32)>) -> bool {
    let n = before.len() as int;
    let m = if top.len() == 0 {
        1
    } else {
        top.len() as int
    };
    &&& after.len() == n + m + 1
    &&& forall|i: int| 0 <= i < n ==> after[i] == before[i]
    &&& top.len() == 0 ==> after[n]@ == "(no players)"@
    &&& forall|i: int| 0 <= i < top.len() ==> (#[trigger] after[n + i])@ == top_line(top[i])
    &&& after[n + m]@ == Seq::<char>::empty()
}

} // verus!
