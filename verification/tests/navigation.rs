use ads::exercises::navigation::{main_menu_key, quits, sub_menu_key, MenuMove, NavCode};

fn is(m: MenuMove, want: MenuMove) -> bool {
    format!("{:?}", m) == format!("{:?}", want)
}

#[test]
fn ctrl_c_and_q_end_the_explorer() {
    assert!(quits(NavCode::Char('c'), true, true));
    assert!(quits(NavCode::Char('c'), true, false));
    assert!(!quits(NavCode::Char('c'), false, false));
    assert!(quits(NavCode::Char('q'), false, false));
    assert!(quits(NavCode::Char('q'), true, false));
    assert!(!quits(NavCode::Char('q'), false, true));
    assert!(!quits(NavCode::Esc, false, false));
}

#[test]
fn main_menu_keys() {
    assert!(is(main_menu_key(0, 4, NavCode::Up), MenuMove::Previous));
    assert!(is(main_menu_key(0, 4, NavCode::Down), MenuMove::Next));
    assert!(is(main_menu_key(1, 4, NavCode::Enter), MenuMove::Open(1)));
    assert!(is(main_menu_key(3, 4, NavCode::Enter), MenuMove::Quit));
    assert!(is(main_menu_key(0, 4, NavCode::Char('3')), MenuMove::Open(2)));
    assert!(is(main_menu_key(0, 4, NavCode::Char('4')), MenuMove::Quit));
    assert!(is(main_menu_key(0, 4, NavCode::Char('5')), MenuMove::Stay));
    assert!(is(main_menu_key(0, 4, NavCode::Esc), MenuMove::Stay));
}

#[test]
fn sub_menu_keys() {
    assert!(is(sub_menu_key(0, 3, 2, NavCode::Esc), MenuMove::Back));
    assert!(is(sub_menu_key(1, 3, 2, NavCode::Enter), MenuMove::Open(1)));
    assert!(is(sub_menu_key(2, 3, 2, NavCode::Enter), MenuMove::Stay));
    assert!(is(sub_menu_key(0, 3, 2, NavCode::Char('2')), MenuMove::Open(1)));
    assert!(is(sub_menu_key(0, 3, 2, NavCode::Char('3')), MenuMove::Select(2)));
    assert!(is(sub_menu_key(0, 3, 2, NavCode::Char('9')), MenuMove::Stay));
    assert!(is(sub_menu_key(0, 3, 2, NavCode::Left), MenuMove::Stay));
}
