use ads::exercises::interactive::{InputReply, InteractiveState, InteractiveTree, TreeAction};
use ads::exercises::types::InputAction;

fn run_all(mut tree: InteractiveTree) {
    for v in [50, 30, 70, 20, 40, 60, 80] {
        assert_eq!(tree.apply_input(InputAction::Insert, v), InputReply::Inserted(v));
    }
    assert_eq!(tree.apply_input(InputAction::Search, 40), InputReply::Exists(40));
    assert_eq!(tree.apply_input(InputAction::Search, 45), InputReply::Missing(45));
    assert_eq!(
        tree.apply_input(InputAction::PredSucc, 50),
        InputReply::Neighbors { predecessor: Some(40), successor: Some(60) }
    );
    assert_eq!(
        tree.apply_input(InputAction::PredSucc, 20),
        InputReply::Neighbors { predecessor: None, successor: Some(30) }
    );
    assert_eq!(
        tree.apply_input(InputAction::PredSucc, 55),
        InputReply::Neighbors { predecessor: None, successor: None }
    );
    assert_eq!(tree.apply_input(InputAction::Delete, 50), InputReply::Deleted(50));
    assert_eq!(tree.apply_input(InputAction::Delete, 50), InputReply::NotFound(50));
    assert_eq!(
        tree.apply_input(InputAction::PredSucc, 40),
        InputReply::Neighbors { predecessor: Some(30), successor: Some(60) }
    );
    assert_eq!(tree.min_max(), (Some(20), Some(80)));
}

#[test]
fn interactive_actions_on_every_tree() {
    run_all(InteractiveTree::new_bst());
    run_all(InteractiveTree::new_rb());
    run_all(InteractiveTree::new_btree());
}

#[test]
fn interactive_menu_prompts_and_reports() {
    let mut state = InteractiveState::new_from_factory(InteractiveTree::new_rb());
    assert_eq!(state.tree.screen_title(), "Red-Black Interactive");
    assert_eq!(
        state.handle_action(0),
        TreeAction::NeedsInput {
            action: InputAction::Insert,
            title: "Red-Black Tree · Insert Value".to_string(),
            hint: "Enter an integer to insert."
        }
    );
    assert_eq!(state.handle_action(3), TreeAction::Completed(InputReply::Range { min: None, max: None }));
    assert_eq!(state.handle_action(5), TreeAction::Back);
    state.tree.apply_input(InputAction::Insert, 7);
    assert_eq!(state.handle_action(3), TreeAction::Completed(InputReply::Range { min: Some(7), max: Some(7) }));
    state.previous_action();
    assert_eq!(state.selected_action, 5);
    state.next_action();
    assert_eq!(state.selected_action, 0);
    let bst = InteractiveState::new_from_factory(InteractiveTree::new_bst());
    assert!(matches!(bst.handle_action(4), TreeAction::NeedsInput { action: InputAction::PredSucc, .. }));
    assert_eq!(InteractiveTree::new_btree().title(), "B-Tree (t = 2, internal=yellow, leaf=cyan)");
}
