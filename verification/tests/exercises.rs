use ads::exercises::command::{parse_command_parts, parse_i32, parse_usize, word_is};
use ads::exercises::leaderboard::{LeaderboardCommand, LeaderboardReply, LeaderboardState};
use ads::exercises::median::{MedianCommand, MedianReply, MedianStreamState};
use ads::exercises::names::{name_is, name_is_less};
use ads::exercises::showcase::{
    bst_depth, build_bst_showcase_tree, build_rb_showcase_tree, rb_black_height, rb_depth,
    ShowcaseState,
};
use ads::exercises::text::{format_members, format_option};
use ads::exercises::types::{
    digit_to_index, CommandApplicationLayout, InputAction, MenuState, Op, PromptState, TreeKind,
};

#[test]
fn command_parts_split_on_any_whitespace() {
    assert_eq!(parse_command_parts("  ADD \t 5\n").unwrap(), vec!["ADD", "5"]);
    assert_eq!(parse_command_parts("a\u{3000}b").unwrap(), vec!["a", "b"]);
    assert_eq!(parse_command_parts("   ").unwrap_err(), "Command cannot be empty.");
    assert_eq!(parse_command_parts("").unwrap_err(), "Command cannot be empty.");
}

#[test]
fn integers_read_like_str_parse() {
    for text in ["0", "+7", "-7", "2147483647", "-2147483648", "007", "-0", "+", "-", "", "1a", "2147483648", "-2147483649", "+-1", " 1"] {
        assert_eq!(parse_i32(text), text.parse::<i32>().ok(), "{text:?}");
    }
    for text in ["0", "+3", "-3", "-0", "18446744073709551615", "18446744073709551616", "x", ""] {
        assert_eq!(parse_usize(text), text.parse::<usize>().ok(), "{text:?}");
    }
}

#[test]
fn command_words_ignore_ascii_case() {
    assert!(word_is("add", "ADD"));
    assert!(word_is("AdD", "ADD"));
    assert!(!word_is("ADDX", "ADD"));
    assert!(!word_is("ädd", "ADD"));
}

#[test]
fn int_text_is_decimal() {
    assert_eq!(format_option(Some(0)), "0");
    assert_eq!(format_option(Some(-45)), "-45");
    assert_eq!(format_option(Some(i32::MIN)), "-2147483648");
}

#[test]
fn names_compare_bytewise() {
    assert!(name_is_less("alice", "bob"));
    assert!(name_is_less("bo", "bob"));
    assert!(!name_is_less("bob", "bob"));
    assert!(name_is_less("Z", "a"));
    assert!(name_is("bob", "bob"));
    assert!(!name_is("bob", "bobby"));
}

#[test]
fn median_commands_parse() {
    assert_eq!(MedianCommand::parse("ADD 5"), Ok(MedianCommand::Add(5)));
    assert_eq!(MedianCommand::parse("add -3"), Ok(MedianCommand::Add(-3)));
    assert_eq!(MedianCommand::parse("Remove 4"), Ok(MedianCommand::Remove(4)));
    assert_eq!(MedianCommand::parse("median extra"), Ok(MedianCommand::Median));
    assert_eq!(MedianCommand::parse("ADD").unwrap_err(), "ADD format: ADD <integer>");
    assert_eq!(MedianCommand::parse("ADD x").unwrap_err(), "ADD expects an integer argument.");
    assert_eq!(MedianCommand::parse("REMOVE 1 2").unwrap_err(), "REMOVE format: REMOVE <integer>");
    assert_eq!(MedianCommand::parse("REMOVE y").unwrap_err(), "REMOVE expects an integer argument.");
    assert_eq!(MedianCommand::parse("POP").unwrap_err(), "Unknown command. Use ADD, REMOVE, or MEDIAN.");
    assert_eq!(MedianCommand::parse(" ").unwrap_err(), "Command cannot be empty.");
}

#[test]
fn median_stream_reports_lower_median() {
    let mut state = MedianStreamState::new();
    assert_eq!(state.execute_command("MEDIAN"), Ok(MedianReply::Empty));
    assert_eq!(state.execute_command("ADD 5"), Ok(MedianReply::Inserted { value: 5, size: 1 }));
    assert_eq!(state.execute_command("ADD 1"), Ok(MedianReply::Inserted { value: 1, size: 2 }));
    assert_eq!(state.execute_command("MEDIAN"), Ok(MedianReply::Median(1)));
    assert_eq!(state.execute_command("ADD 3"), Ok(MedianReply::Inserted { value: 3, size: 3 }));
    assert_eq!(state.execute_command("ADD 3"), Ok(MedianReply::Inserted { value: 3, size: 3 }));
    assert_eq!(state.execute_command("MEDIAN"), Ok(MedianReply::Median(3)));
    assert_eq!(state.execute_command("ADD 8"), Ok(MedianReply::Inserted { value: 8, size: 4 }));
    assert_eq!(state.median(), Some(3));
    assert_eq!(state.execute_command("REMOVE 3"), Ok(MedianReply::Removed { value: 3, size: 3 }));
    assert_eq!(state.execute_command("MEDIAN"), Ok(MedianReply::Median(5)));
    assert_eq!(state.execute_command("REMOVE 42"), Ok(MedianReply::NotFound(42)));
    assert_eq!(state.execute_command("BOGUS").unwrap_err(), "Unknown command. Use ADD, REMOVE, or MEDIAN.");
    assert_eq!(state.output, vec!["1".to_string(), "3".to_string(), "5".to_string()]);
}

fn request(c: &LeaderboardCommand) -> (u8, String, i64) {
    match c {
        LeaderboardCommand::Add { player, score } => (0, player.clone(), *score as i64),
        LeaderboardCommand::Update { player, delta } => (1, player.clone(), *delta as i64),
        LeaderboardCommand::Remove { player } => (2, player.clone(), 0),
        LeaderboardCommand::Top { k } => (3, String::new(), *k as i64),
    }
}

#[test]
fn leaderboard_commands_parse() {
    assert_eq!(request(&LeaderboardCommand::parse("ADD alice 10").unwrap()), (0, "alice".to_string(), 10));
    assert_eq!(request(&LeaderboardCommand::parse("update Bob -3").unwrap()), (1, "Bob".to_string(), -3));
    assert_eq!(request(&LeaderboardCommand::parse("remove carol").unwrap()), (2, "carol".to_string(), 0));
    assert_eq!(request(&LeaderboardCommand::parse("TOP 3").unwrap()), (3, String::new(), 3));
    assert_eq!(LeaderboardCommand::parse("ADD alice").unwrap_err(), "ADD format: ADD player score");
    assert_eq!(LeaderboardCommand::parse("ADD alice ten").unwrap_err(), "ADD expects score to be an integer.");
    assert_eq!(LeaderboardCommand::parse("UPDATE bob").unwrap_err(), "UPDATE format: UPDATE player delta");
    assert_eq!(LeaderboardCommand::parse("UPDATE bob x").unwrap_err(), "UPDATE expects delta to be an integer.");
    assert_eq!(LeaderboardCommand::parse("REMOVE").unwrap_err(), "REMOVE format: REMOVE player");
    assert_eq!(LeaderboardCommand::parse("TOP").unwrap_err(), "TOP format: TOP k");
    assert_eq!(LeaderboardCommand::parse("TOP -1").unwrap_err(), "TOP expects k to be a non-negative integer.");
    assert_eq!(LeaderboardCommand::parse("JUMP").unwrap_err(), "Unknown command. Use ADD, UPDATE, REMOVE, or TOP.");
}

#[test]
fn leaderboard_ranks_by_score_then_name() {
    let mut state = LeaderboardState::new();
    assert!(matches!(state.execute_command("ADD alice 10"), Ok(LeaderboardReply::Added { score: 10, .. })));
    assert!(matches!(state.execute_command("ADD bob 20"), Ok(LeaderboardReply::Added { .. })));
    assert!(matches!(state.execute_command("ADD carol 20"), Ok(LeaderboardReply::Added { .. })));
    assert!(matches!(state.execute_command("ADD alice 1"), Ok(LeaderboardReply::AlreadyPresent(_))));
    assert!(matches!(state.execute_command("TOP 2"), Ok(LeaderboardReply::TopDone(2))));
    assert_eq!(state.output, vec!["carol 20", "bob 20", ""]);
    assert!(matches!(state.execute_command("UPDATE alice 15"), Ok(LeaderboardReply::Updated { from: 10, to: 25, .. })));
    state.output.clear();
    state.execute_command("TOP 10").unwrap();
    assert_eq!(state.output, vec!["alice 25", "carol 20", "bob 20", ""]);
    assert!(matches!(state.execute_command("REMOVE bob"), Ok(LeaderboardReply::Removed(_))));
    assert!(matches!(state.execute_command("REMOVE bob"), Ok(LeaderboardReply::RemoveMissing(_))));
    assert!(matches!(state.execute_command("UPDATE zed 1"), Ok(LeaderboardReply::UpdateMissing(_))));
    state.output.clear();
    state.execute_command("TOP 5").unwrap();
    assert_eq!(state.output, vec!["alice 25", "carol 20", ""]);
    state.output.clear();
    state.execute_command("TOP 0").unwrap();
    assert_eq!(state.output, vec!["(no players)", ""]);
    assert_eq!(state.execute_command("NOPE").unwrap_err(), "Unknown command. Use ADD, UPDATE, REMOVE, or TOP.");
    assert_eq!(state.scores.len(), 2);
}

#[test]
fn leaderboard_update_to_same_and_lower_scores() {
    let mut state = LeaderboardState::new();
    state.execute_command("ADD x 5").unwrap();
    state.execute_command("ADD y 5").unwrap();
    state.execute_command("UPDATE x 0").unwrap();
    state.execute_command("UPDATE y -10").unwrap();
    state.execute_command("TOP 2").unwrap();
    assert_eq!(state.output, vec!["x 5", "y -5", ""]);
}

#[test]
fn showcase_steps_through_operations() {
    let mut s = ShowcaseState::new(TreeKind::Bst);
    assert_eq!(s.screen_title(), "BST Showcase");
    assert_eq!(s.tree_title(), "Binary Search Tree");
    assert_eq!(s.operations().len(), 16);
    assert_eq!(s.current_action(), None);
    s.next_step();
    assert_eq!(s.current_action(), Some(Op::Insert(50)));
    for _ in 0..40 {
        s.next_step();
    }
    assert_eq!(s.step, 16);
    assert_eq!(s.current_action(), Some(Op::Delete(90)));
    s.previous_step();
    assert_eq!(s.step, 15);
    let mut r = ShowcaseState::new(TreeKind::Rb);
    assert_eq!(r.screen_title(), "Red-Black Tree Showcase");
    assert_eq!(r.tree_title(), "Red-Black Tree");
    r.previous_step();
    assert_eq!(r.step, 0);
}

#[test]
fn showcase_trees_follow_the_script() {
    let bst = build_bst_showcase_tree(16);
    assert_eq!(bst.len(), 10);
    assert!(!bst.contains_key(&25));
    assert!(!bst.contains_key(&50));
    assert!(bst.contains_key(&100));
    assert_eq!(bst_depth(&bst.root_view()), bst.height());
    let rb = build_rb_showcase_tree(9);
    assert_eq!(rb.len(), 9);
    assert_eq!(rb_depth(&rb.root_view()), rb.height());
    assert!(rb_black_height(&rb.root_view()) >= 2);
    assert_eq!(build_rb_showcase_tree(100).len(), 6);
    assert_eq!(bst_depth(&build_bst_showcase_tree(0).root_view()), 0);
    assert_eq!(rb_black_height(&build_rb_showcase_tree(0).root_view()), 1);
    assert_eq!(rb_black_height(&build_rb_showcase_tree(1).root_view()), 2);
}

#[test]
fn menu_wraps_around() {
    static ITEMS: [&str; 3] = ["a", "b", "c"];
    let mut m = MenuState::new(&ITEMS);
    m.previous();
    assert_eq!(m.selected, 2);
    m.next();
    assert_eq!(m.selected, 0);
    m.next();
    assert_eq!(m.selected, 1);
}

#[test]
fn digit_keys_select_entries() {
    assert_eq!(digit_to_index('1', 3), Some(0));
    assert_eq!(digit_to_index('3', 3), Some(2));
    assert_eq!(digit_to_index('4', 3), None);
    assert_eq!(digit_to_index('0', 3), None);
    assert_eq!(digit_to_index('x', 3), None);
    assert_eq!(digit_to_index('٣', 9), None);
}

#[test]
fn records_keep_their_fields() {
    let p = PromptState::new(InputAction::Search, "Find".to_string(), "hint");
    assert_eq!(p.title, "Find");
    assert!(p.buffer.is_empty());
    assert_eq!(p.action, InputAction::Search);
    let l = CommandApplicationLayout::new(62, 4, 4, "Output", "Command Input", "Stats", "Tree");
    assert_eq!(l.left_width_percent, 62);
    assert_eq!(l.state_title, "Tree");
}

#[test]
fn optional_values_print_as_number_or_none() {
    assert_eq!(format_option(Some(-42)), "-42");
    assert_eq!(format_option(Some(0)), "0");
    assert_eq!(format_option(None), "None");
}

#[test]
fn members_print_as_a_braced_list() {
    assert_eq!(format_members(&[1, 2, 3]), "{1, 2, 3}");
    assert_eq!(format_members(&[7]), "{7}");
    assert_eq!(format_members(&[]), "{}");
    assert_eq!(format_members(&[1234, 0]), "{1234, 0}");
}

#[test]
fn median_add_then_remove_restores_the_stream() {
    let mut state = MedianStreamState::new();
    state.execute_command("ADD 4").unwrap();
    state.execute_command("ADD 9").unwrap();
    assert_eq!(state.execute_command("MEDIAN"), Ok(MedianReply::Median(4)));
    assert_eq!(state.execute_command("ADD 1"), Ok(MedianReply::Inserted { value: 1, size: 3 }));
    assert_eq!(state.execute_command("REMOVE 1"), Ok(MedianReply::Removed { value: 1, size: 2 }));
    assert_eq!(state.execute_command("MEDIAN"), Ok(MedianReply::Median(4)));
    assert_eq!(state.output, vec!["4", "4"]);
}

#[test]
fn leaderboard_add_then_remove_restores_the_board() {
    let mut state = LeaderboardState::new();
    state.execute_command("ADD ann 3").unwrap();
    state.execute_command("TOP 5").unwrap();
    let before = state.output.clone();
    assert!(matches!(state.execute_command("ADD ben 7"), Ok(LeaderboardReply::Added { score: 7, .. })));
    assert!(matches!(state.execute_command("ADD ben 1"), Ok(LeaderboardReply::AlreadyPresent(_))));
    assert!(matches!(state.execute_command("REMOVE ben"), Ok(LeaderboardReply::Removed(_))));
    state.output.clear();
    state.execute_command("TOP 5").unwrap();
    assert_eq!(state.output, before);
    assert_eq!(state.output, vec!["ann 3", ""]);
}
