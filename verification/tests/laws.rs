use dre::command_mode::{reduce, Command};
use dre::diagram::{node, node_with_children, Document, Node, Path};
use dre::file_document::{colours_valid, from_document, open, to_document, FileBox, FileDoc};
use dre::render::svg::SvgRenderer;
use dre::layout::{diagram, with_cursor};
use dre::state::{handle_key, hide_idle_cursor, key_fits, new_state, reduce as run_key, Mode, State, INTERRUPT};

fn selected_at(index: usize) -> Option<Path> {
    Some(Path { ancestors: vec![], index })
}

fn three_boxes() -> State {
    new_state(vec![node("a"), node_with_children("b", vec![node("c")]), node("d")], Mode::Command, selected_at(1))
}

#[test]
fn every_undoable_command_is_taken_back_by_undo() {
    for command in [
        Command::NewBox,
        Command::CycleColour,
        Command::ToggleFill,
        Command::ToggleRounded,
        Command::RenameLabel,
    ] {
        let before = three_boxes();
        let doc = before.doc.clone();
        let after = reduce(reduce(before, command), Command::Undo);
        assert_eq!(after.doc, doc, "{command:?}");
    }
}

#[test]
fn moving_the_selection_keeps_the_boxes_and_the_history() {
    for command in [Command::SelectParent, Command::SelectChild, Command::SelectNext, Command::SelectPrevious, Command::ScrollBy(3)] {
        let before = three_boxes();
        let boxes = before.doc.boxes.clone();
        let after = reduce(before, command);
        assert_eq!(after.doc.boxes, boxes);
        assert!(after.history.is_empty());
    }
}

#[test]
fn a_confirmed_name_always_ends_in_the_extension() {
    for typed in ["plans", "plans.dre", "", "a.b"] {
        let state = new_state(vec![], Mode::SavePrompt { filename: typed.to_string() }, None);
        let state = handle_key(state, "\r");
        assert!(state.save_to.unwrap().ends_with(".dre"));
        assert!(!state.running);
    }
}

#[test]
fn ctrl_c_saves_nothing_in_every_mode() {
    for mode in [Mode::Command, Mode::Insert, Mode::SavePrompt { filename: "x".to_string() }] {
        let mut state = new_state(vec![node("a")], mode, selected_at(0));
        state.save_to = Some("a.dre".to_string());
        let state = run_key(state, Some(INTERRUPT));
        assert!(!state.running);
        assert_eq!(state.save_to, None);
    }
}

#[test]
fn an_idle_second_changes_nothing_the_next_key_sees() {
    let plain = handle_key(three_boxes(), "j");
    let paused = handle_key(hide_idle_cursor(three_boxes()), "j");
    assert_eq!(plain.doc, paused.doc);
}

#[test]
fn saving_and_opening_keeps_labels_colours_rounding_and_nesting() {
    let doc = Document {
        boxes: vec![
            Node { colour: Some(2), filled: true, rounded: true, ..node_with_children("a", vec![node("b")]) },
            Node { filled: true, ..node("plain but filled") },
        ],
        selected: None,
    };
    let back = to_document(from_document(&doc));
    assert_eq!(back.boxes[0], doc.boxes[0]);
    assert_eq!(back.boxes[1], node("plain but filled"));
}

#[test]
fn a_file_with_a_colour_outside_the_palette_does_not_open() {
    let bad = FileDoc {
        boxes: vec![FileBox { label: "A".to_string(), colour: Some(99), fill: None, rounded: false, children: vec![] }],
    };
    assert!(!colours_valid(&bad.boxes));
    assert!(open(bad, Some("a.dre".to_string())).is_none());
}

#[test]
fn an_opened_file_selects_its_first_box_and_saves_back_to_it() {
    let file = FileDoc {
        boxes: vec![FileBox { label: "API".to_string(), colour: Some(1), fill: Some(1), rounded: false, children: vec![] }],
    };
    let state = open(file, Some("a.dre".to_string())).unwrap();
    assert_eq!(state.doc.selected, selected_at(0));
    assert_eq!(state.save_to, Some("a.dre".to_string()));
    assert!(state.doc.boxes[0].filled);
    assert!(!state.new_file);
}

#[test]
fn a_scroll_past_the_largest_offset_does_not_fit() {
    let mut state = new_state(vec![], Mode::Command, None);
    assert!(key_fits(&state, "\x1bSCROLL5"));
    state.scroll_x = i64::MAX;
    assert!(!key_fits(&state, "\x1bSCROLL5"));
    assert!(key_fits(&state, "\x1bSCROLL-5"));
    assert!(key_fits(&state, "q"));
}

#[test]
fn rendering_a_state_draws_its_diagram_with_the_caret() {
    let state = new_state(vec![node_with_children("root", vec![node("A"), node("B")])], Mode::Command, selected_at(0));
    let expected = SvgRenderer::default().draw(&with_cursor(diagram(&state.doc.boxes), Some(vec![0])));
    assert_eq!(SvgRenderer::default().render(&state), expected);
}

#[test]
fn undo_walks_back_through_changes_with_moves_between_them() {
    let start = three_boxes();
    let d1 = start.doc.clone();
    let s = reduce(start, Command::CycleColour);
    let s = reduce(s, Command::SelectNext);
    let d2 = s.doc.clone();
    let s = reduce(s, Command::ToggleRounded);
    let s = reduce(s, Command::ScrollBy(4));
    let s = reduce(s, Command::SelectPrevious);
    let d3 = s.doc.clone();
    let s = reduce(s, Command::NewBox);
    let s = reduce(s, Command::Undo);
    assert_eq!(s.doc, d3);
    let s = reduce(s, Command::Undo);
    assert_eq!(s.doc, d2);
    let s = reduce(s, Command::Undo);
    assert_eq!(s.doc, d1);
    assert!(s.history.is_empty());
    assert_eq!(s.scroll_x, 4);
    assert_eq!(s.mode, Mode::Insert);
    let s = reduce(s, Command::Undo);
    assert_eq!(s.doc, d1);
}
