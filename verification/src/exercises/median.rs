//! The dynamic median of a stream of integers, kept in a red-black tree that counts its
//! subtrees: `ADD x`, `REMOVE x` and `MEDIAN` commands.
use vstd::prelude::*;
use vstd::string::StringSliceAdditionalSpecFns;
use vstd::utf8::encode_utf8;

use crate::exercises::command::{
    i32_written, parse_command_parts, parse_i32, upper_ascii, word_is, ws_words,
};
use crate::exercises::text::{decimal_text, int_text};
use crate::key::TreeKey;
use crate::trees::node::{
    lemma_map_finite_size, lemma_seq_matches_map, map_of, seq_of, sorted_entries,
};
use crate::trees::red_black_tree::safe::RedBlackTree;

verus! {

/// A command of the median application.
#[derive(Debug, PartialEq, Eq)]
pub enum MedianCommand {
    Add(i32),
    Remove(i32),
    Median,
}

/// The command that the words of a line spell, or the message for a line that spells none.
pub open spec fn median_command_of(words: Seq<Seq<char>>) -> Result<MedianCommand, Seq<char>> {
    if words.len() == 0 {
        Err("Command cannot be empty."@)
    } else {
        let w = upper_ascii(encode_utf8(words[0]));
        if w == "ADD".spec_bytes() {
            if words.len() != 2 {
                Err("ADD format: ADD <integer>"@)
            } else {
                match i32_written(encode_utf8(words[1])) {
                    Some(x) => Ok(MedianCommand::Add(x)),
                    None => Err("ADD expects an integer argument."@),
                }
            }
        } else if w == "REMOVE".spec_bytes() {
            if words.len() != 2 {
                Err("REMOVE format: REMOVE <integer>"@)
            } else {
                match i32_written(encode_utf8(words[1])) {
                    Some(x) => Ok(MedianCommand::Remove(x)),
                    None => Err("REMOVE expects an integer argument."@),
                }
            }
        } else if w == "MEDIAN".spec_bytes() {
            Ok(MedianCommand::Median)
        } else {
            Err("Unknown command. Use ADD, REMOVE, or MEDIAN."@)
        }
    }
}

/// `r` is the parse result that `spec` describes, with the message compared as text.
pub open spec fn parsed_as<C>(r: Result<C, String>, spec: Result<C, Seq<char>>) -> bool {
    match (r, spec) {
        (Ok(c), Ok(d)) => c == d,
        (Err(e), Err(m)) => e@ == m,
        _ => false,
    }
}

impl MedianCommand {
    /// Reads a command line: the command word in any ASCII case, then its argument.
    pub fn parse(input: &str) -> (r: Result<MedianCommand, String>)
        ensures
            parsed_as(r, median_command_of(ws_words(input@))),
    {
        let parts = match parse_command_parts(input) {
            Ok(p) => p,
            Err(e) => {
                return Err(e);
            },
        };
        if word_is(parts[0], "ADD") {
            if parts.len() != 2 {
                return Err(String::from_str("ADD format: ADD <integer>"));
            }
            match parse_i32(parts[1]) {
                Some(x) => Ok(MedianCommand::Add(x)),
                None => Err(String::from_str("ADD expects an integer argument.")),
            }
        } else if word_is(parts[0], "REMOVE") {
            if parts.len() != 2 {
                return Err(String::from_str("REMOVE format: REMOVE <integer>"));
            }
            match parse_i32(parts[1]) {
                Some(x) => Ok(MedianCommand::Remove(x)),
                None => Err(String::from_str("REMOVE expects an integer argument.")),
            }
        } else if word_is(parts[0], "MEDIAN") {
            Ok(MedianCommand::Median)
        } else {
            Err(String::from_str("Unknown command. Use ADD, REMOVE, or MEDIAN."))
        }
    }
}

/// What a command did, for the application to report.
#[derive(Debug, PartialEq, Eq)]
pub enum MedianReply {
    /// The value is in the stream, which now holds `size` values.
    Inserted { value: i32, size: usize },
    /// The value left the stream, which now holds `size` values.
    Removed { value: i32, size: usize },
    /// The value to remove was not in the stream.
    NotFound(i32),
    /// The stream is empty, so it has no median.
    Empty,
    /// The lower median of the stream.
    Median(i32),
}

/// The number of values of `s` below `m`.
pub open spec fn count_below(s: Set<i32>, m: i32) -> nat {
    s.filter(|x: i32| x < m).len()
}

/// `m` is the lower median of the finite, non-empty set `s`: a value of `s` with exactly
/// `(|s| - 1) / 2` values of `s` below it.
pub open spec fn is_lower_median(s: Set<i32>, m: i32) -> bool {
    s.contains(m) && count_below(s, m) == (s.len() - 1) / 2
}

/// In a sorted sequence of entries whose keys are the keys of `m`, exactly `r` keys lie below
/// the key at position `r`.
proof fn lemma_rank_count(q: Seq<(i32, ())>, m: Map<i32, ()>, r: int)
    requires
        sorted_entries(q),
        0 <= r < q.len(),
        forall|i: int| 0 <= i < q.len() ==> #[trigger] m.dom().contains(q[i].0),
        forall|k: i32| #[trigger] m.dom().contains(k) ==> exists|i: int| 0 <= i < q.len() && #[trigger] q[i].0 == k,
    ensures
        count_below(m.dom(), q[r].0) == r,
{
    let below = q.take(r).map_values(|e: (i32, ())| e.0);
    let key = q[r].0;
    assert(below.no_duplicates()) by {
        assert forall|a: int, b: int| 0 <= a < below.len() && 0 <= b < below.len() && a != b implies below[a] != below[b] by {
            if a < b {
                assert(q[a].0.rank() < q[b].0.rank());
            } else {
                assert(q[b].0.rank() < q[a].0.rank());
            }
        }
    }
    below.unique_seq_to_set();
    let low = m.dom().filter(|x: i32| x < key);
    assert(low =~= below.to_set()) by {
        assert forall|x: i32| #[trigger] low.contains(x) implies below.to_set().contains(x) by {
            let i = choose|i: int| 0 <= i < q.len() && #[trigger] q[i].0 == x;
            if i >= r {
                if i > r {
                    assert(q[r].0.rank() < q[i].0.rank());
                }
            }
            assert(below[i] == x);
        }
        assert forall|x: i32| #[trigger] below.to_set().contains(x) implies low.contains(x) by {
            let i = choose|i: int| 0 <= i < below.len() && below[i] == x;
            assert(q[i].0 == x);
            assert(q[i].0.rank() < q[r].0.rank());
        }
    }
}

/// `after` and the reply `r` are what `command` makes of `before`: `ADD` puts the value into
/// the stream, `REMOVE` takes it out if it is there, and `MEDIAN` prints the lower median of a
/// non-empty stream; the typed input is kept.
pub open spec fn median_applied(
    before: MedianStreamState,
    after: MedianStreamState,
    command: MedianCommand,
    r: MedianReply,
) -> bool {
    &&& after.input == before.input
    &&& match command {
        MedianCommand::Add(x) => {
            &&& after.stream() == before.stream().insert(x)
            &&& after.output == before.output
            &&& r == MedianReply::Inserted { value: x, size: after.stream().len() as usize }
        },
        MedianCommand::Remove(x) => {
            &&& after.output == before.output
            &&& if before.stream().contains(x) {
                &&& after.stream() == before.stream().remove(x)
                &&& r == MedianReply::Removed { value: x, size: after.stream().len() as usize }
            } else {
                after.stream() == before.stream() && r == MedianReply::NotFound(x)
            }
        },
        MedianCommand::Median => {
            &&& after.stream() == before.stream()
            &&& if before.stream().len() == 0 {
                r == MedianReply::Empty && after.output == before.output
            } else {
                exists|m: i32|
                    #![trigger is_lower_median(before.stream(), m)]
                    is_lower_median(before.stream(), m) && r == MedianReply::Median(m)
                        && after.output@ == before.output@.push(after.output@.last())
                        && after.output@.last()@ == decimal_text(m as int)
            }
        },
    }
}

/// The state of the median application: the stream, the medians printed so far and the
/// command being typed.
pub struct MedianStreamState {
    pub tree: RedBlackTree<i32, ()>,
    pub output: Vec<String>,
    pub input: String,
}

impl MedianStreamState {
    /// The tree is valid.
    pub open spec fn wf(&self) -> bool {
        self.tree.wf()
    }

    /// The values of the stream.
    pub open spec fn stream(&self) -> Set<i32> {
        self.tree@.dom()
    }

    /// An empty stream, no output and no input.
    pub fn new() -> (r: Self)
        ensures
            r.wf(),
            r.stream() == Set::<i32>::empty(),
            r.output@.len() == 0,
            r.input@.len() == 0,
    {
        MedianStreamState { tree: RedBlackTree::new(), output: Vec::new(), input: String::new() }
    }

    /// The lower median of the stream, or `None` when it is empty.
    pub fn median(&self) -> (r: Option<i32>)
        requires
            self.wf(),
        ensures
            self.stream().finite(),
            r is None <==> self.stream().len() == 0,
            r matches Some(m) ==> is_lower_median(self.stream(), m),
    {
        proof {
            self.tree.lemma_shape();
        }
        let n = self.tree.size();
        if n == 0 {
            return None;
        }
        let rank = (n - 1) / 2;
        match self.tree.select(rank) {
            Some(c) => {
                let m = *c.key();
                proof {
                    let shape = self.tree.shape();
                    lemma_map_finite_size(shape);
                    lemma_seq_matches_map(shape);
                    lemma_rank_count(seq_of(shape), map_of(shape), rank as int);
                }
                Some(m)
            },
            None => None,
        }
    }

    /// Carries out one command.
    pub fn apply(&mut self, command: MedianCommand) -> (r: MedianReply)
        requires
            old(self).wf(),
            old(self).stream().len() < usize::MAX,
        ensures
            final(self).wf(),
            median_applied(*old(self), *final(self), command, r),
    {
        proof {
            self.tree.lemma_shape();
        }
        match command {
            MedianCommand::Add(x) => {
                self.tree.insert_entry(x, ());
                proof {
                    self.tree.lemma_shape();
                    assert(self.tree@.dom() =~= old(self).tree@.dom().insert(x));
                }
                MedianReply::Inserted { value: x, size: self.tree.size() }
            },
            MedianCommand::Remove(x) => {
                let existed = self.tree.cursor(&x).is_some();
                if existed {
                    self.tree.remove_key(&x);
                    proof {
                        self.tree.lemma_shape();
                        assert(self.tree@.dom() =~= old(self).tree@.dom().remove(x));
                    }
                    MedianReply::Removed { value: x, size: self.tree.size() }
                } else {
                    MedianReply::NotFound(x)
                }
            },
            MedianCommand::Median => {
                match self.median() {
                    None => MedianReply::Empty,
                    Some(m) => {
                        self.output.push(int_text(m));
                        MedianReply::Median(m)
                    },
                }
            },
        }
    }

    /// Reads and carries out one command line; a line that spells no command changes nothing
    /// and gives its message.
    pub fn execute_command(&mut self, raw: &str) -> (r: Result<MedianReply, String>)
        requires
            old(self).wf(),
            old(self).stream().len() < usize::MAX,
        ensures
            final(self).wf(),
            match median_command_of(ws_words(raw@)) {
                Err(m) => r matches Err(e) && e@ == m && final(self).stream() == old(self).stream()
                    && final(self).output == old(self).output,
                Ok(c) => r matches Ok(x) && median_applied(*old(self), *final(self), c, x),
            },
    {
        match MedianCommand::parse(raw) {
            Err(e) => Err(e),
            Ok(command) => Ok(self.apply(command)),
        }
    }
}

} // verus!
