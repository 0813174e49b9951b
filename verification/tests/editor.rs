use dre::diagram::{node, node_with_children, Document, Path};
use dre::editor::{autosave_due, follow_selection, overflow_delta, selected_box_edges, step};
use dre::layout::{diagram, PlacementNode};
use dre::state::{load, new_state, Mode, State, INTERRUPT};

const COLUMNS: i64 = 20;

fn run_script(state: State, script: Vec<Option<&str>>) -> State {
    let mut state = state;
    for key in script {
        if !state.running {
            break;
        }
        state = step(state, key, COLUMNS);
    }
    state
}

fn state_saving_to(path: &str) -> State {
    load(Document::default(), Some(path.to_string()))
}

#[test]
fn a_box_that_fits_within_the_columns_does_not_overflow() {
    assert_eq!(overflow_delta(0, 20, 0, 20), None);
}

#[test]
fn a_box_whose_right_edge_lands_exactly_on_the_last_column_does_not_overflow() {
    assert_eq!(overflow_delta(0, 19, 0, 20), None);
}

#[test]
fn a_box_one_column_past_the_edge_overflows_by_the_exact_amount_needed() {
    assert_eq!(overflow_delta(0, 21, 0, 20), Some(2));
}

#[test]
fn a_box_far_past_the_edge_overflows_by_the_exact_amount_needed_to_land_on_the_last_column() {
    assert_eq!(overflow_delta(11, 25, 0, 20), Some(6));
}

#[test]
fn an_existing_scroll_offset_is_taken_into_account() {
    assert_eq!(overflow_delta(11, 25, 3, 20), Some(3));
}

#[test]
fn selected_box_edges_is_none_when_nothing_is_selected() {
    let doc = Document { boxes: vec![node("a")], selected: None };
    assert_eq!(selected_box_edges(&doc), None);
}

#[test]
fn selected_box_edges_returns_the_edges_of_the_selected_box() {
    let doc = Document { boxes: vec![node("a"), node("bb")], selected: Some(Path { ancestors: vec![], index: 1 }) };
    let placements = diagram(&doc.boxes);
    let label = placements
        .iter()
        .position(|placement| matches!(&placement.node, PlacementNode::Label(label) if label.text == "bb"))
        .unwrap();
    let boxes: Vec<_> = placements.iter().filter(|p| matches!(p.node, PlacementNode::Box { .. })).collect();
    let labels_before = placements[..label].iter().filter(|p| matches!(p.node, PlacementNode::Label(_))).count();
    let bb = boxes[labels_before];
    assert_eq!(selected_box_edges(&doc), Some((bb.x, bb.x + bb.width)));
}

#[test]
fn selected_box_edges_matches_a_nested_selection() {
    let doc = Document {
        boxes: vec![node_with_children("parent", vec![node("child")])],
        selected: Some(Path { ancestors: vec![0], index: 0 }),
    };
    let placements = diagram(&doc.boxes);
    let boxes: Vec<_> = placements.iter().filter(|p| matches!(p.node, PlacementNode::Box { .. })).collect();
    let child = boxes[1];
    assert_eq!(selected_box_edges(&doc), Some((child.x, child.x + child.width)));
}

#[test]
fn an_interrupt_clears_where_to_save() {
    let state = run_script(state_saving_to("a.dre"), vec![Some(INTERRUPT)]);
    assert_eq!(state.save_to, None);
    assert!(!state.running);
}

#[test]
fn a_quit_stops_the_loop_and_keeps_where_to_save() {
    let state = run_script(state_saving_to("a.dre"), vec![Some("q")]);
    assert!(!state.running);
    assert_eq!(state.save_to, Some("a.dre".to_string()));
}

#[test]
fn an_idle_second_hides_the_cursor_and_the_next_key_restores_it() {
    let selected = Path { ancestors: vec![], index: 0 };
    let mut state = new_state(vec![node("a"), node("b")], Mode::Command, Some(selected.clone()));
    state.save_to = Some("a.dre".to_string());
    let idle = step(state, None, COLUMNS);
    assert_eq!(idle.doc.selected, None);
    let state = run_script(idle, vec![Some("q")]);
    assert_eq!(state.doc.selected, Some(selected));
    assert!(!state.running);
}

#[test]
fn a_normal_key_sequence_that_never_overflows_leaves_scroll_x_at_zero() {
    let mut state = new_state(vec![], Mode::Command, None);
    state.save_to = Some("a.dre".to_string());
    let state = run_script(state, vec![Some("b"), Some("\x1b"), Some("q")]);
    assert_eq!(state.scroll_x, 0);
}

#[test]
fn adding_a_box_that_overflows_the_right_edge_scrolls_it_fully_into_view() {
    let mut state = new_state(vec![], Mode::Command, None);
    state.save_to = Some("a.dre".to_string());
    let state = run_script(state, vec![Some("b"), Some("\r"), Some("\r"), Some("\x1b"), Some("q")]);
    assert_ne!(state.scroll_x, 0);
    let (_, right) = selected_box_edges(&state.doc).unwrap();
    assert_eq!(right - state.scroll_x, COLUMNS - 1);
}

#[test]
fn following_a_box_already_on_screen_changes_nothing() {
    let state = new_state(vec![node("a")], Mode::Command, Some(Path { ancestors: vec![], index: 0 }));
    let state = follow_selection(state, COLUMNS);
    assert_eq!(state.scroll_x, 0);
}

#[test]
fn a_change_to_a_named_diagram_is_due_for_saving() {
    let mut state = new_state(vec![node("a")], Mode::Command, Some(Path { ancestors: vec![], index: 0 }));
    state.save_to = Some("a.dre".to_string());
    assert!(!autosave_due(&state, 0));
    let state = step(state, Some("c"), COLUMNS);
    assert_eq!(state.history.len(), 1);
    assert!(autosave_due(&state, 0));
    assert!(!autosave_due(&state, 1));
}

#[test]
fn typing_a_label_is_not_due_for_saving() {
    let mut state = new_state(vec![node("a")], Mode::Command, Some(Path { ancestors: vec![], index: 0 }));
    state.save_to = Some("a.dre".to_string());
    let state = step(state, Some("I"), COLUMNS);
    assert_eq!(state.mode, Mode::Insert);
    assert!(!autosave_due(&state, 0));
}

#[test]
fn without_a_file_to_save_to_nothing_is_due() {
    let state = new_state(vec![], Mode::Command, None);
    let state = step(step(state, Some("b"), COLUMNS), Some("\x1b"), COLUMNS);
    assert!(!autosave_due(&state, 0));
}

/// Runs keys through `reduce`, saving whenever `autosave_due` says so; gives
/// the state and how many saves were made.
fn reduce_all_saving(state: State, keys: &[&str], saved_len: &mut usize) -> (State, usize) {
    let mut state = state;
    let mut saves = 0;
    for key in keys {
        state = dre::state::reduce(state, Some(key));
        if autosave_due(&state, *saved_len) {
            saves += 1;
            *saved_len = state.history.len();
        }
    }
    (state, saves)
}

fn named_state() -> State {
    load(Document { boxes: vec![node("a"), node("b")], selected: None }, Some("diagram.dre".to_string()))
}

#[test]
fn a_key_that_changes_the_history_length_saves_once() {
    let mut saved = 0;
    let (_, saves) = reduce_all_saving(named_state(), &["c"], &mut saved);
    assert_eq!(saves, 1);
}

#[test]
fn a_selection_move_does_not_save() {
    let mut saved = 0;
    let (_, saves) = reduce_all_saving(named_state(), &["j", "k"], &mut saved);
    assert_eq!(saves, 0);
}

#[test]
fn keys_typed_in_insert_do_not_save_and_leaving_insert_saves_once() {
    let mut saved = 0;
    let (typing, typed_saves) = reduce_all_saving(named_state(), &["i", "x", "y"], &mut saved);
    assert_eq!(typing.mode, Mode::Insert);
    let (left, left_saves) = reduce_all_saving(typing, &["\x1b"], &mut saved);
    assert_eq!(left.mode, Mode::Command);
    assert_eq!(typed_saves + left_saves, 1);
}

#[test]
fn enter_starting_the_next_child_does_not_save_and_the_following_esc_saves_once() {
    let mut saved = 0;
    let (next_child, typed_saves) = reduce_all_saving(named_state(), &["i", "x", "\r", "y"], &mut saved);
    assert_eq!(next_child.mode, Mode::Insert);
    let (_, left_saves) = reduce_all_saving(next_child, &["\x1b"], &mut saved);
    assert_eq!(typed_saves + left_saves, 1);
}

#[test]
fn without_a_file_to_save_to_nothing_is_saved() {
    let mut saved = 0;
    let mut state = named_state();
    state.save_to = None;
    let (_, saves) = reduce_all_saving(state, &["c"], &mut saved);
    assert_eq!(saves, 0);
}

#[test]
fn ctrl_c_after_a_change_leaves_no_file_to_save_to_and_does_not_save_again() {
    let mut saved = 0;
    let (changed, first) = reduce_all_saving(named_state(), &["c"], &mut saved);
    let (interrupted, second) = reduce_all_saving(changed, &[INTERRUPT], &mut saved);
    assert_eq!(interrupted.save_to, None);
    assert_eq!(first + second, 1);
}
