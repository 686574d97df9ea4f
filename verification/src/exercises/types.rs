//! Small value types of the exercise applications.
use vstd::prelude::*;

verus! {

/// A scripted tree operation.
#[derive(Clone, Copy, Debug, PartialEq, Eq, Structural)]
pub enum Op {
    Insert(i32),
    Delete(i32),
}

/// The tree kinds that the showcase and interactive screens show.
#[derive(Clone, Copy, Debug, PartialEq, Eq, Structural)]
pub enum TreeKind {
    Bst,
    Rb,
}

/// What a value typed at a prompt is for.
#[derive(Clone, Copy, Debug, PartialEq, Eq, Structural)]
pub enum InputAction {
    Insert,
    Delete,
    Search,
    PredSucc,
}

/// A prompt for a value: what it is for, its title and hint, and the text typed so far.
pub struct PromptState {
    pub action: InputAction,
    pub title: String,
    pub hint: &'static str,
    pub buffer: String,
}

impl PromptState {
    /// A prompt with nothing typed yet.
    pub fn new(action: InputAction, title: String, hint: &'static str) -> (r: Self)
        ensures
            r.action == action,
            r.title == title,
            r.hint == hint,
            r.buffer@ == Seq::<char>::empty(),
    {
        PromptState { action, title, hint, buffer: String::new() }
    }
}

/// How a command application lays out its panes: the width of the left column in percent,
/// the heights of the input and statistics panes, and the pane titles.
pub struct CommandApplicationLayout {
    pub left_width_percent: u16,
    pub input_height: u16,
    pub stats_height: u16,
    pub output_title: &'static str,
    pub input_title: &'static str,
    pub stats_title: &'static str,
    pub state_title: &'static str,
}

impl CommandApplicationLayout {
    /// A layout from its parts.
    pub fn new(
        left_width_percent: u16,
        input_height: u16,
        stats_height: u16,
        output_title: &'static str,
        input_title: &'static str,
        stats_title: &'static str,
        state_title: &'static str,
    ) -> (r: Self)
        ensures
            r.left_width_percent == left_width_percent,
            r.input_height == input_height,
            r.stats_height == stats_height,
            r.output_title == output_title,
            r.input_title == input_title,
            r.stats_title == stats_title,
            r.state_title == state_title,
    {
        CommandApplicationLayout {
            left_width_percent,
            input_height,
            stats_height,
            output_title,
            input_title,
            stats_title,
            state_title,
        }
    }
}

/// The menu index of a digit key: `1` to `9` select the entries 0 to 8, when there are that
/// many entries.
pub fn digit_to_index(ch: char, max: usize) -> (r: Option<usize>)
    ensures
        r == (if 49 <= ch as u32 <= 57 && (ch as u32 - 49) < max {
            Some((ch as u32 - 49) as usize)
        } else {
            None::<usize>
        }),
{
    let c = ch as u32;
    if c >= 49 && c <= 57 {
        let index = (c - 49) as usize;
        if index < max {
            return Some(index);
        }
    }
    None
}

/// A menu: its entries and the selected one.
pub struct MenuState {
    pub items: &'static [&'static str],
    pub selected: usize,
}

impl MenuState {
    /// A menu with its first entry selected.
    pub fn new(items: &'static [&'static str]) -> (r: Self)
        ensures
            r.items == items,
            r.selected == 0,
    {
        MenuState { items, selected: 0 }
    }

    /// Selects the next entry, from the last back to the first.
    pub fn next(&mut self)
        requires
            old(self).items@.len() > 0,
            old(self).selected < usize::MAX,
        ensures
            final(self).items == old(self).items,
            final(self).selected == (old(self).selected + 1) % (old(self).items@.len() as int),
    {
        self.selected = (self.selected + 1) % self.items.len();
    }

    /// Selects the previous entry, from the first back to the last.
    pub fn previous(&mut self)
        requires
            old(self).items@.len() > 0,
        ensures
            final(self).items == old(self).items,
            final(self).selected == (if old(self).selected == 0 {
                old(self).items@.len() - 1
            } else {
                old(self).selected - 1
            }),
    {
        self.selected = if self.selected == 0 {
            self.items.len() - 1
        } else {
            self.selected - 1
        };
    }
}

} // verus!
