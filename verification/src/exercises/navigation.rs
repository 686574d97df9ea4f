//! The explorer's key decisions: which key presses end it, and what a key does in a menu.
use vstd::prelude::*;

use crate::exercises::types::digit_to_index;

verus! {

/// The code of a key press, as the explorer reads it.
#[derive(Clone, Copy, Debug)]
pub enum NavCode {
    Char(char),
    Up,
    Down,
    Left,
    Right,
    Enter,
    Esc,
    Backspace,
    Other,
}

/// The code is the character `c`.
pub open spec fn is_char(code: NavCode, c: char) -> bool {
    code matches NavCode::Char(x) && x == c
}

/// Whether a key press ends the explorer: Ctrl-C always, `q` whenever no prompt is open.
pub fn quits(code: NavCode, control: bool, prompt_open: bool) -> (r: bool)
    ensures
        r == ((control && is_char(code, 'c')) || (!prompt_open && is_char(code, 'q'))),
{
    match code {
        NavCode::Char(c) => (control && c == 'c') || (!prompt_open && c == 'q'),
        _ => false,
    }
}

/// What a key does in a menu: nothing, move the selection up or down, select an entry and
/// stay, open the screen of an entry, go back to the main menu, or end the explorer.
#[derive(Clone, Copy, Debug)]
pub enum MenuMove {
    Stay,
    Previous,
    Next,
    Select(usize),
    Open(usize),
    Back,
    Quit,
}

/// The menu index of a digit key (see `digit_to_index`).
pub open spec fn digit_index(code: NavCode, count: usize) -> Option<usize> {
    match code {
        NavCode::Char(ch) => if 49 <= ch as u32 <= 57 && (ch as u32 - 49) < count {
            Some((ch as u32 - 49) as usize)
        } else {
            None
        },
        _ => None,
    }
}

/// What choosing entry `i` of the main menu does: the first three entries open a screen, the
/// fourth ends the explorer, any other does nothing.
pub open spec fn main_choice(i: usize) -> MenuMove {
    if i < 3 {
        MenuMove::Open(i)
    } else if i == 3 {
        MenuMove::Quit
    } else {
        MenuMove::Stay
    }
}

/// What a key does in the main menu of `count` entries: Up and Down move the selection, Enter
/// chooses the selected entry, and a digit chooses its entry (see `main_choice`).
pub open spec fn main_menu_move(selected: usize, count: usize, code: NavCode) -> MenuMove {
    match code {
        NavCode::Up => MenuMove::Previous,
        NavCode::Down => MenuMove::Next,
        NavCode::Enter => main_choice(selected),
        NavCode::Char(_) => match digit_index(code, count) {
            Some(i) => main_choice(i),
            None => MenuMove::Stay,
        },
        _ => MenuMove::Stay,
    }
}

fn main_choice_of(i: usize) -> (m: MenuMove)
    ensures
        m == main_choice(i),
{
    if i < 3 {
        MenuMove::Open(i)
    } else if i == 3 {
        MenuMove::Quit
    } else {
        MenuMove::Stay
    }
}

/// What a key does in the main menu (see `main_menu_move`).
pub fn main_menu_key(selected: usize, count: usize, code: NavCode) -> (r: MenuMove)
    ensures
        r == main_menu_move(selected, count, code),
{
    match code {
        NavCode::Up => MenuMove::Previous,
        NavCode::Down => MenuMove::Next,
        NavCode::Enter => main_choice_of(selected),
        NavCode::Char(c) => match digit_to_index(c, count) {
            Some(i) => main_choice_of(i),
            None => MenuMove::Stay,
        },
        _ => MenuMove::Stay,
    }
}

/// What a key does in a sub menu of `count` entries whose first `screens` entries have a
/// screen: Esc goes back, Up and Down move the selection, Enter opens the selected entry when
/// it has a screen, and a digit selects its entry and opens it when it has a screen.
pub open spec fn sub_menu_move(selected: usize, count: usize, screens: usize, code: NavCode) -> MenuMove {
    match code {
        NavCode::Esc => MenuMove::Back,
        NavCode::Up => MenuMove::Previous,
        NavCode::Down => MenuMove::Next,
        NavCode::Enter => if selected < screens {
            MenuMove::Open(selected)
        } else {
            MenuMove::Stay
        },
        NavCode::Char(_) => match digit_index(code, count) {
            Some(i) => if i < screens {
                MenuMove::Open(i)
            } else {
                MenuMove::Select(i)
            },
            None => MenuMove::Stay,
        },
        _ => MenuMove::Stay,
    }
}

/// What a key does in a sub menu (see `sub_menu_move`).
pub fn sub_menu_key(selected: usize, count: usize, screens: usize, code: NavCode) -> (r: MenuMove)
    ensures
        r == sub_menu_move(selected, count, screens, code),
{
    match code {
        NavCode::Esc => MenuMove::Back,
        NavCode::Up => MenuMove::Previous,
        NavCode::Down => MenuMove::Next,
        NavCode::Enter => if selected < screens {
            MenuMove::Open(selected)
        } else {
            MenuMove::Stay
        },
        NavCode::Char(c) => match digit_to_index(c, count) {
            Some(i) => if i < screens {
                MenuMove::Open(i)
            } else {
                MenuMove::Select(i)
            },
            None => MenuMove::Stay,
        },
        _ => MenuMove::Stay,
    }
}

} // verus!
