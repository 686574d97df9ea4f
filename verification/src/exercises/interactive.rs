//! Interactive mode: a tree of the user's choice, and the actions of its menu — insert,
//! delete, search, smallest and largest key, neighbours of a key.
use vstd::prelude::*;

use crate::exercises::types::InputAction;
use crate::trees::b_tree::safe::BTree;
use crate::trees::binary_search_tree::safe::BinarySearchTree;
use crate::trees::node::{has_key_above, has_key_below, is_max_key, is_min_key, is_next_key, is_prev_key};
use crate::trees::red_black_tree::safe::RedBlackTree;

verus! {

/// The tree that interactive mode works on.
pub enum InteractiveTree {
    Bst(BinarySearchTree<i32, ()>),
    Rb(RedBlackTree<i32, ()>),
    BTree(BTree<i32, (), 2>),
}

/// What an action did, for the screen to report.
#[derive(Debug, PartialEq, Eq)]
pub enum InputReply {
    /// The value is in the tree.
    Inserted(i32),
    /// The value left the tree.
    Deleted(i32),
    /// The value to delete was not in the tree.
    NotFound(i32),
    /// The value searched for is in the tree.
    Exists(i32),
    /// The value searched for is not in the tree.
    Missing(i32),
    /// The smallest and the largest key, when the tree has keys.
    Range { min: Option<i32>, max: Option<i32> },
    /// The keys next to a value of the tree, below and above it.
    Neighbors { predecessor: Option<i32>, successor: Option<i32> },
}

/// What choosing an action of the menu leads to.
#[derive(Debug, PartialEq, Eq)]
pub enum TreeAction {
    /// The action needs a value: the prompt's action, title and hint.
    NeedsInput { action: InputAction, title: String, hint: &'static str },
    /// The action is done.
    Completed(InputReply),
    /// Back to the menu of trees.
    Back,
}

/// `p` is the key just below `v` when `v` is a key with a smaller key, and none otherwise.
pub open spec fn below_of(m: Map<i32, ()>, v: i32, p: Option<i32>) -> bool {
    match p {
        Some(x) => m.dom().contains(v) && is_prev_key(m, v, x),
        None => !m.dom().contains(v) || !has_key_below(m, v),
    }
}

/// `s` is the key just above `v` when `v` is a key with a larger key, and none otherwise.
pub open spec fn above_of(m: Map<i32, ()>, v: i32, s: Option<i32>) -> bool {
    match s {
        Some(x) => m.dom().contains(v) && is_next_key(m, v, x),
        None => !m.dom().contains(v) || !has_key_above(m, v),
    }
}

/// `lo` and `hi` are the smallest and the largest key, or none for an empty tree.
pub open spec fn range_of(m: Map<i32, ()>, lo: Option<i32>, hi: Option<i32>) -> bool {
    &&& (lo is Some <==> m.len() > 0) && (hi is Some <==> m.len() > 0)
    &&& lo matches Some(x) ==> is_min_key(m, x)
    &&& hi matches Some(x) ==> is_max_key(m, x)
}

impl InteractiveTree {
    /// The tree is well formed.
    pub open spec fn wf(&self) -> bool {
        match self {
            InteractiveTree::Bst(t) => t.wf(),
            InteractiveTree::Rb(t) => t.wf(),
            InteractiveTree::BTree(t) => t.wf(),
        }
    }

    /// The keys of the tree.
    pub open spec fn keys(&self) -> Map<i32, ()> {
        match self {
            InteractiveTree::Bst(t) => t@,
            InteractiveTree::Rb(t) => t@,
            InteractiveTree::BTree(t) => t@,
        }
    }

    /// Which kind of tree it is: 0, 1 or 2 for the binary search, red-black and B-tree.
    pub open spec fn kind(&self) -> nat {
        match self {
            InteractiveTree::Bst(_) => 0,
            InteractiveTree::Rb(_) => 1,
            InteractiveTree::BTree(_) => 2,
        }
    }

    /// An empty binary search tree.
    pub fn new_bst() -> (r: Self)
        ensures
            r.wf(),
            r.kind() == 0,
            r.keys() == Map::<i32, ()>::empty(),
    {
        InteractiveTree::Bst(BinarySearchTree::new())
    }

    /// An empty red-black tree.
    pub fn new_rb() -> (r: Self)
        ensures
            r.wf(),
            r.kind() == 1,
            r.keys() == Map::<i32, ()>::empty(),
    {
        InteractiveTree::Rb(RedBlackTree::new())
    }

    /// An empty B-tree of minimum degree 2.
    pub fn new_btree() -> (r: Self)
        ensures
            r.wf(),
            r.kind() == 2,
            r.keys() == Map::<i32, ()>::empty(),
    {
        InteractiveTree::BTree(BTree::new())
    }

    /// The title of the tree's screen.
    pub fn title(&self) -> (r: &'static str)
        ensures
            r@ == match self {
                InteractiveTree::Bst(_) => "Binary Search Tree"@,
                InteractiveTree::Rb(_) => "Red-Black Tree"@,
                InteractiveTree::BTree(_) => "B-Tree (t = 2, internal=yellow, leaf=cyan)"@,
            },
    {
        match self {
            InteractiveTree::Bst(_) => "Binary Search Tree",
            InteractiveTree::Rb(_) => "Red-Black Tree",
            InteractiveTree::BTree(_) => "B-Tree (t = 2, internal=yellow, leaf=cyan)",
        }
    }

    /// The title of interactive mode for the tree.
    pub fn screen_title(&self) -> (r: &'static str)
        ensures
            r@ == match self {
                InteractiveTree::Bst(_) => "BST Interactive"@,
                InteractiveTree::Rb(_) => "Red-Black Interactive"@,
                InteractiveTree::BTree(_) => "B-Tree Interactive"@,
            },
    {
        match self {
            InteractiveTree::Bst(_) => "BST Interactive",
            InteractiveTree::Rb(_) => "Red-Black Interactive",
            InteractiveTree::BTree(_) => "B-Tree Interactive",
        }
    }

    /// The name of the tree in the titles of its prompts.
    pub open spec fn prefix(&self) -> Seq<char> {
        match self {
            InteractiveTree::Bst(_) => "BST"@,
            InteractiveTree::Rb(_) => "Red-Black Tree"@,
            InteractiveTree::BTree(_) => "B-Tree"@,
        }
    }

    /// The name of the tree in the titles of its prompts.
    pub fn prompt_prefix(&self) -> (r: &'static str)
        ensures
            r@ == self.prefix(),
    {
        match self {
            InteractiveTree::Bst(_) => "BST",
            InteractiveTree::Rb(_) => "Red-Black Tree",
            InteractiveTree::BTree(_) => "B-Tree",
        }
    }

    /// The smallest and the largest key.
    pub fn min_max(&self) -> (r: (Option<i32>, Option<i32>))
        requires
            self.wf(),
        ensures
            range_of(self.keys(), r.0, r.1),
    {
        match self {
            InteractiveTree::Bst(t) => (
                match t.min_cursor() {
                    Some(c) => Some(*c.key()),
                    None => None,
                },
                match t.max_cursor() {
                    Some(c) => Some(*c.key()),
                    None => None,
                },
            ),
            InteractiveTree::Rb(t) => (
                match t.min_cursor() {
                    Some(c) => Some(*c.key()),
                    None => None,
                },
                match t.max_cursor() {
                    Some(c) => Some(*c.key()),
                    None => None,
                },
            ),
            InteractiveTree::BTree(t) => (
                match t.min_cursor() {
                    Some(c) => Some(*c.key()),
                    None => None,
                },
                match t.max_cursor() {
                    Some(c) => Some(*c.key()),
                    None => None,
                },
            ),
        }
    }

    /// The keys next to `value`, when it is a key of the tree.
    pub fn neighbors(&self, value: i32) -> (r: (Option<i32>, Option<i32>))
        requires
            self.wf(),
        ensures
            below_of(self.keys(), value, r.0),
            above_of(self.keys(), value, r.1),
    {
        match self {
            InteractiveTree::Bst(t) => match t.cursor(&value) {
                None => (None, None),
                Some(c) => (
                    match c.predecessor() {
                        Some(p) => Some(*p.key()),
                        None => None,
                    },
                    match c.successor() {
                        Some(s) => Some(*s.key()),
                        None => None,
                    },
                ),
            },
            InteractiveTree::Rb(t) => match t.cursor(&value) {
                None => (None, None),
                Some(c) => (
                    match c.predecessor() {
                        Some(p) => Some(*p.key()),
                        None => None,
                    },
                    match c.successor() {
                        Some(s) => Some(*s.key()),
                        None => None,
                    },
                ),
            },
            InteractiveTree::BTree(t) => match t.cursor(&value) {
                None => (None, None),
                Some(c) => (
                    match c.predecessor() {
                        Some(p) => Some(*p.key()),
                        None => None,
                    },
                    match c.successor() {
                        Some(s) => Some(*s.key()),
                        None => None,
                    },
                ),
            },
        }
    }

    /// Carries out an action that takes a value.
    pub fn apply_input(&mut self, action: InputAction, value: i32) -> (r: InputReply)
        requires
            old(self).wf(),
            old(self).keys().len() < usize::MAX,
        ensures
            final(self).wf(),
            final(self).kind() == old(self).kind(),
            match action {
                InputAction::Insert => final(self).keys() == old(self).keys().insert(value, ())
                    && r == InputReply::Inserted(value),
                InputAction::Delete => if old(self).keys().dom().contains(value) {
                    final(self).keys() == old(self).keys().remove(value) && r
                        == InputReply::Deleted(value)
                } else {
                    final(self).keys() == old(self).keys() && r == InputReply::NotFound(value)
                },
                InputAction::Search => final(self).keys() == old(self).keys() && if old(
                    self,
                ).keys().dom().contains(value) {
                    r == InputReply::Exists(value)
                } else {
                    r == InputReply::Missing(value)
                },
                InputAction::PredSucc => final(self).keys() == old(self).keys() && (r matches InputReply::Neighbors { predecessor: p, successor: s } && below_of(
                    old(self).keys(),
                    value,
                    p,
                ) && above_of(old(self).keys(), value, s)),
            },
    {
        match action {
            InputAction::Insert => {
                match self {
                    InteractiveTree::Bst(t) => {
                        t.insert_entry(value, ());
                    },
                    InteractiveTree::Rb(t) => {
                        t.insert_entry(value, ());
                    },
                    InteractiveTree::BTree(t) => {
                        t.insert_entry(value, ());
                    },
                }
                InputReply::Inserted(value)
            },
            InputAction::Delete => {
                let removed = match self {
                    InteractiveTree::Bst(t) => t.remove_key(&value).is_some(),
                    InteractiveTree::Rb(t) => t.remove_key(&value).is_some(),
                    InteractiveTree::BTree(t) => t.remove_key(&value).is_some(),
                };
                if removed {
                    InputReply::Deleted(value)
                } else {
                    proof {
                        assert(old(self).keys().remove(value) =~= old(self).keys());
                    }
                    InputReply::NotFound(value)
                }
            },
            InputAction::Search => {
                let found = match self {
                    InteractiveTree::Bst(t) => t.contains_key(&value),
                    InteractiveTree::Rb(t) => t.contains_key(&value),
                    InteractiveTree::BTree(t) => t.contains_key(&value),
                };
                if found {
                    InputReply::Exists(value)
                } else {
                    InputReply::Missing(value)
                }
            },
            InputAction::PredSucc => {
                let (p, s) = self.neighbors(value);
                InputReply::Neighbors { predecessor: p, successor: s }
            },
        }
    }
}

/// The prompt title for an action on a tree: the tree's name, ` · ` and what is asked.
pub open spec fn prompt_title(prefix: Seq<char>, what: Seq<char>) -> Seq<char> {
    prefix + " · "@ + what
}

/// `r` asks for a value for action `a`, with this title and hint.
pub open spec fn asks(r: TreeAction, a: InputAction, title: Seq<char>, hint: Seq<char>) -> bool {
    match r {
        TreeAction::NeedsInput { action, title: t, hint: h } => action == a && t@ == title && h@
            == hint,
        _ => false,
    }
}

/// `r` reports the smallest and the largest key of `m`.
pub open spec fn gives_range(r: TreeAction, m: Map<i32, ()>) -> bool {
    match r {
        TreeAction::Completed(InputReply::Range { min, max }) => range_of(m, min, max),
        _ => false,
    }
}

/// Interactive mode: the tree and the highlighted action of its menu.
pub struct InteractiveState {
    pub tree: InteractiveTree,
    pub selected_action: usize,
}

impl InteractiveState {
    /// Interactive mode on a tree, with the first action highlighted.
    pub fn new_from_factory(tree: InteractiveTree) -> (r: Self)
        ensures
            r.tree == tree,
            r.selected_action == 0,
    {
        InteractiveState { tree, selected_action: 0 }
    }

    /// The number of actions of the menu.
    pub fn action_count(&self) -> (r: usize)
        ensures
            r == 6,
    {
        6
    }

    /// Highlights the next action, wrapping round after the last.
    pub fn next_action(&mut self)
        requires
            old(self).selected_action < 6,
        ensures
            final(self).tree == old(self).tree,
            final(self).selected_action == (old(self).selected_action + 1) % 6,
    {
        let n = self.action_count();
        self.selected_action = (self.selected_action + 1) % n;
    }

    /// Highlights the previous action, wrapping round before the first.
    pub fn previous_action(&mut self)
        requires
            old(self).selected_action < 6,
        ensures
            final(self).tree == old(self).tree,
            final(self).selected_action == if old(self).selected_action == 0 {
                5
            } else {
                old(self).selected_action - 1
            },
    {
        let n = self.action_count();
        self.selected_action = if self.selected_action == 0 {
            n - 1
        } else {
            self.selected_action - 1
        };
    }

    /// What choosing action `action` of the menu leads to: a prompt for a value (insert,
    /// delete, search, neighbours), the smallest and largest key, or back.
    pub fn handle_action(&self, action: usize) -> (r: TreeAction)
        requires
            self.tree.wf(),
        ensures
            action == 0 ==> asks(r, InputAction::Insert, prompt_title(self.tree.prefix(), "Insert Value"@), "Enter an integer to insert."@),
            action == 1 ==> asks(r, InputAction::Delete, prompt_title(self.tree.prefix(), "Delete Value"@), "Enter an integer to delete."@),
            action == 2 ==> asks(r, InputAction::Search, prompt_title(self.tree.prefix(), "Search Value"@), "Enter an integer to search for."@),
            action == 3 ==> gives_range(r, self.tree.keys()),
            action == 4 ==> asks(r, InputAction::PredSucc, prompt_title(self.tree.prefix(), "Base Value"@), "Enter an integer to inspect neighbors."@),
            action >= 5 ==> r == TreeAction::Back,
    {
        let prefix = self.tree.prompt_prefix();
        match action {
            0 => TreeAction::NeedsInput {
                action: InputAction::Insert,
                title: titled(prefix, "Insert Value"),
                hint: "Enter an integer to insert.",
            },
            1 => TreeAction::NeedsInput {
                action: InputAction::Delete,
                title: titled(prefix, "Delete Value"),
                hint: "Enter an integer to delete.",
            },
            2 => TreeAction::NeedsInput {
                action: InputAction::Search,
                title: titled(prefix, "Search Value"),
                hint: "Enter an integer to search for.",
            },
            3 => {
                let (lo, hi) = self.tree.min_max();
                TreeAction::Completed(InputReply::Range { min: lo, max: hi })
            },
            4 => TreeAction::NeedsInput {
                action: InputAction::PredSucc,
                title: titled(prefix, "Base Value"),
                hint: "Enter an integer to inspect neighbors.",
            },
            _ => TreeAction::Back,
        }
    }
}

/// The title of a prompt (see `prompt_title`).
fn titled(prefix: &str, what: &str) -> (r: String)
    ensures
        r@ == prompt_title(prefix@, what@),
{
    let mut t = String::from_str(prefix);
    t.append(" · ");
    t.append(what);
    t
}

} // verus!
