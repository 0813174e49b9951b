use dre::command_mode::colour_row;
use dre::diagram::{blank_box, node, node_with_children, Document, Node, Path};
use dre::palette::{next_on_palette, palette, BACKGROUND};
use dre::state::{
    add_child_box, handle_key, hide_idle_cursor, load, new_file, new_state, snapshot, Mode, State, PAD,
};
use dre::status_line::{status_line, Segment, CURSOR};

#[test]
fn a_default_state_is_not_dirty() {
    assert!(!State::default().dirty);
}

#[test]
fn snapshot_marks_the_state_as_dirty() {
    let state = new_state(vec![], Mode::Command, None);
    assert!(!state.dirty);
    let result = snapshot(state);
    assert!(result.dirty);
}

#[test]
fn load_selects_the_first_box() {
    let state = load(
        Document {
            boxes: vec![node("a"), node("b")],
            selected: None,
        },
        None,
    );
    assert_eq!(state.doc.boxes, vec![node("a"), node("b")]);
    assert_eq!(
        state.doc.selected,
        Some(Path {
            ancestors: vec![],
            index: 0
        })
    );
}

#[test]
fn load_of_an_empty_document_selects_nothing() {
    let state = load(Document::default(), None);
    assert!(state.doc.boxes.is_empty());
    assert_eq!(state.doc.selected, None);
}

#[test]
fn load_records_where_to_save_back_to() {
    let state = load(Document::default(), Some("diagram.dre".to_string()));
    assert_eq!(state.save_to, Some("diagram.dre".to_string()));
}

#[test]
fn load_is_not_a_new_file() {
    let state = load(Document::default(), Some("diagram.dre".to_string()));
    assert!(!state.new_file);
}

#[test]
fn new_file_is_empty_with_the_path_to_save_to() {
    let state = new_file("diagram.dre".to_string());
    assert!(state.doc.boxes.is_empty());
    assert_eq!(state.doc.selected, None);
    assert_eq!(state.save_to, Some("diagram.dre".to_string()));
    assert!(state.new_file);
}

#[test]
fn blank_box_is_a_default_box_labelled_with_the_pad() {
    assert_eq!(
        blank_box(),
        Node {
            label: PAD.to_string(),
            ..Default::default()
        }
    );
}

#[test]
fn add_child_box_without_a_selection_grows_a_top_level_box_and_enters_insert_mode() {
    let state = new_state(vec![], Mode::Command, None);
    let result = add_child_box(state, None);
    assert_eq!(result.doc.boxes, vec![node(PAD)]);
    assert_eq!(
        result.doc.selected,
        Some(Path {
            ancestors: vec![],
            index: 0
        })
    );
    assert_eq!(result.mode, Mode::Insert);
}

#[test]
fn add_child_box_with_a_selection_grows_a_child_and_descends_the_path() {
    let state = new_state(
        vec![node("a")],
        Mode::Command,
        Some(Path {
            ancestors: vec![],
            index: 0,
        }),
    );
    let result = add_child_box(
        state,
        Some(Path {
            ancestors: vec![],
            index: 0,
        }),
    );
    assert_eq!(
        result.doc.boxes,
        vec![node_with_children("a", vec![node(PAD)])]
    );
    assert_eq!(
        result.doc.selected,
        Some(Path {
            ancestors: vec![0],
            index: 0
        })
    );
    assert_eq!(result.mode, Mode::Insert);
}

#[test]
fn state_colour_row_advances_uniformly_coloured_siblings() {
    let mut boxes = vec![node("a"), node("b")];
    let mut a = node("a");
    a.colour = next_on_palette(None);
    let mut b = node("b");
    b.colour = next_on_palette(None);
    colour_row(&mut boxes);
    assert_eq!(boxes, vec![a, b]);
}

#[test]
fn state_colour_row_sets_mixed_siblings_to_the_first_palette_colour() {
    let mut a = node("a");
    a.colour = Some(0);
    let mut b = node("b");
    b.colour = Some(1);
    let mut boxes = vec![a, b];
    let mut expected_a = node("a");
    expected_a.colour = Some(0);
    let mut expected_b = node("b");
    expected_b.colour = Some(0);
    colour_row(&mut boxes);
    assert_eq!(boxes, vec![expected_a, expected_b]);
}

#[test]
fn state_state_starts_running() {
    let state = new_state(vec![], Mode::Command, None);
    assert!(state.running);
}

#[test]
fn state_state_starts_in_command_mode() {
    let state = new_state(vec![], Mode::Command, None);
    assert_eq!(state.mode, Mode::Command);
}

#[test]
fn state_unknown_key_returns_the_state_unchanged() {
    let state = new_state(vec![node("a")], Mode::Command, None);
    let result = handle_key(state.clone(), "x");
    assert_eq!(result.doc.boxes, state.doc.boxes);
    assert_eq!(result.doc.selected, state.doc.selected);
    assert_eq!(result.mode, state.mode);
    assert_eq!(result.running, state.running);
}

#[test]
fn a_bare_digit_in_command_mode_leaves_the_document_unchanged() {
    let boxes = vec![node("a"), node("b")];
    let state = new_state(
        boxes.clone(),
        Mode::Command,
        Some(Path {
            ancestors: vec![],
            index: 1,
        }),
    );
    for key in ["0", "1", "2", "3", "4", "5", "6", "7", "8", "9"] {
        let result = handle_key(state.clone(), key);
        assert_eq!(result.doc.boxes, boxes);
        assert_eq!(
            result.doc.selected,
            Some(Path {
                ancestors: vec![],
                index: 1
            })
        );
    }
}

#[test]
fn a_default_state_starts_with_no_scroll() {
    let state = new_state(vec![], Mode::Command, None);
    assert_eq!(state.scroll_x, 0);
}

#[test]
fn a_synthesized_scroll_key_shifts_scroll_x_and_leaves_selection_and_count_untouched() {
    let boxes = vec![node("a"), node("b")];
    let state = new_state(
        boxes.clone(),
        Mode::Command,
        Some(Path {
            ancestors: vec![],
            index: 1,
        }),
    );
    let result = handle_key(state, "\x1bSCROLL12");
    assert_eq!(result.scroll_x, 12);
    assert_eq!(result.doc.boxes, boxes);
    assert_eq!(
        result.doc.selected,
        Some(Path {
            ancestors: vec![],
            index: 1
        })
    );
    assert_eq!(result.pending_count, None);
}

#[test]
fn a_scroll_key_keeps_a_pending_count_in_every_mode() {
    for insert in [false, true] {
        let mode = if insert { Mode::Insert } else { Mode::Command };
        let mut state = new_state(vec![node("a")], mode, Some(Path { ancestors: vec![], index: 0 }));
        state.pending_count = Some(3);
        let result = handle_key(state, "\x1bSCROLL12");
        assert_eq!(result.scroll_x, 12);
        assert_eq!(result.pending_count, Some(3));
        assert_eq!(result.mode, if insert { Mode::Insert } else { Mode::Command });
    }
}

#[test]
fn a_negative_synthesized_scroll_key_shifts_scroll_x_backwards() {
    let state = new_state(vec![], Mode::Command, None);
    let result = handle_key(state, "\x1bSCROLL-7");
    assert_eq!(result.scroll_x, -7);
}

#[test]
fn a_synthesized_scroll_key_takes_effect_in_insert_mode() {
    let state = new_state(
        vec![node("a")],
        Mode::Insert,
        Some(Path {
            ancestors: vec![],
            index: 0,
        }),
    );
    let result = handle_key(state, "\x1bSCROLL5");
    assert_eq!(result.scroll_x, 5);
    assert_eq!(result.mode, Mode::Insert);
}

#[test]
fn digits_and_count_prefixed_movement_leave_mode_and_running_unchanged() {
    let boxes: Vec<Node> = (0..5).map(|i| node(&i.to_string())).collect();
    let state = new_state(
        boxes.clone(),
        Mode::Command,
        Some(Path {
            ancestors: vec![],
            index: 0,
        }),
    );
    for key in ["0", "1", "2", "3", "4", "5", "6", "7", "8", "9"] {
        let result = handle_key(state.clone(), key);
        assert_eq!(result.mode, Mode::Command);
        assert_eq!(result.running, state.running);
    }
    let result = handle_key(handle_key(handle_key(state.clone(), "3"), "2"), "j");
    assert_eq!(result.mode, Mode::Command);
    assert_eq!(result.running, state.running);
}

#[test]
fn digits_accumulate_across_keystrokes() {
    let boxes: Vec<Node> = (0..40).map(|i| node(&i.to_string())).collect();
    let state = new_state(
        boxes,
        Mode::Command,
        Some(Path {
            ancestors: vec![],
            index: 0,
        }),
    );
    let state = handle_key(state, "3");
    let result = handle_key(state, "2");
    assert_eq!(
        result.doc.selected,
        Some(Path {
            ancestors: vec![],
            index: 0
        })
    );
    let result = handle_key(result, "j");
    assert_eq!(
        result.doc.selected,
        Some(Path {
            ancestors: vec![],
            index: 32
        })
    );
}

#[test]
fn repeated_digits_saturate_without_panic() {
    let boxes = vec![node("a"), node("b")];
    let state = new_state(
        boxes,
        Mode::Command,
        Some(Path {
            ancestors: vec![],
            index: 0,
        }),
    );
    let mut state = state;
    for _ in 0..20 {
        state = handle_key(state, "9");
    }
    let state = handle_key(state, "x");
    let result = handle_key(state, "j");
    assert_eq!(
        result.doc.selected,
        Some(Path {
            ancestors: vec![],
            index: 1
        })
    );
}

#[test]
fn an_idle_hide_in_command_mode_clears_the_selection_and_stashes_it() {
    let selected = Path {
        ancestors: vec![],
        index: 0,
    };
    let state = new_state(vec![node("a")], Mode::Command, Some(selected.clone()));
    let hidden = hide_idle_cursor(state);
    assert_eq!(hidden.doc.selected, None);
    assert_eq!(hidden.last_selected, Some(selected));
}

#[test]
fn an_idle_hide_in_insert_mode_leaves_the_selection_alone() {
    let selected = Path {
        ancestors: vec![],
        index: 0,
    };
    let state = new_state(vec![node("a")], Mode::Insert, Some(selected.clone()));
    let hidden = hide_idle_cursor(state);
    assert_eq!(hidden.doc.selected, Some(selected));
    assert_eq!(hidden.last_selected, None);
}

#[test]
fn an_idle_hide_in_save_prompt_mode_leaves_the_selection_alone() {
    let selected = Path {
        ancestors: vec![],
        index: 0,
    };
    let state = new_state(
        vec![node("a")],
        Mode::SavePrompt {
            filename: "a.dre".to_string(),
        },
        Some(selected.clone()),
    );
    let hidden = hide_idle_cursor(state);
    assert_eq!(hidden.doc.selected, Some(selected));
    assert_eq!(hidden.last_selected, None);
}

#[test]
fn an_idle_hide_with_nothing_selected_is_a_noop() {
    let state = new_state(vec![node("a")], Mode::Command, None);
    let hidden = hide_idle_cursor(state);
    assert_eq!(hidden.doc.selected, None);
    assert_eq!(hidden.last_selected, None);
}

#[test]
fn repeating_idle_hides_keep_the_stashed_selection() {
    let selected = Path {
        ancestors: vec![],
        index: 0,
    };
    let state = new_state(vec![node("a")], Mode::Command, Some(selected.clone()));
    let hidden = hide_idle_cursor(hide_idle_cursor(state));
    assert_eq!(hidden.doc.selected, None);
    assert_eq!(hidden.last_selected, Some(selected.clone()));
    let restored = handle_key(hidden, "z");
    assert_eq!(restored.doc.selected, Some(selected));
}

#[test]
fn the_next_key_after_a_hide_lands_every_command_on_the_hidden_box() {
    let state = new_state(
        vec![node("a"), node("b")],
        Mode::Command,
        Some(Path {
            ancestors: vec![],
            index: 0,
        }),
    );
    let hidden = hide_idle_cursor(state);
    let result = handle_key(hidden, "j");
    assert_eq!(
        result.doc.selected,
        Some(Path {
            ancestors: vec![],
            index: 1
        })
    );
}

#[test]
fn any_key_after_a_hide_restores_the_selection() {
    let selected = Path {
        ancestors: vec![],
        index: 0,
    };
    let state = new_state(vec![node("a")], Mode::Command, Some(selected.clone()));
    let hidden = hide_idle_cursor(state);
    let result = handle_key(hidden, "z");
    assert_eq!(result.doc.selected, Some(selected));
}

#[test]
fn an_idle_hide_is_not_undoable_and_does_not_pollute_history() {
    let mut state = new_state(
        vec![node("a")],
        Mode::Command,
        Some(Path {
            ancestors: vec![],
            index: 0,
        }),
    );
    state = snapshot(state);
    state = snapshot(state);
    let hidden = hide_idle_cursor(state);
    assert_eq!(hidden.history.len(), 2);
    assert_eq!(hidden.doc.selected, None);
}

fn texts(segments: &[Segment]) -> Vec<&str> {
    segments.iter().map(|s| s.text.as_str()).collect()
}

fn save_prompt_state() -> State {
    let mode = Mode::SavePrompt {
        filename: "diagram.dre".to_string(),
    };
    new_state(vec![], mode, None)
}

#[test]
fn status_line_pads_the_mode_label_with_a_space_on_each_side() {
    let command = new_state(vec![], Mode::Command, None);
    let insert = new_state(vec![], Mode::Insert, None);
    assert_eq!(status_line(&command).left[0].text, " COMMANDING ");
    assert_eq!(status_line(&insert).left[0].text, " EDITING ");
}

#[test]
fn status_line_keeps_showing_commanding_during_the_save_prompt() {
    let line = status_line(&save_prompt_state());
    assert_eq!(line.left[0].text, " COMMANDING ");
}

#[test]
fn status_line_styles_the_mode_segment_bold_lime_on_the_app_background() {
    let style = status_line(&new_state(vec![], Mode::Command, None)).left[0].style;
    let (r, g, b) = palette(0).unwrap();
    assert!(style.bold);
    assert_eq!(style.background, Some((r, g, b, 0xFF)));
    assert_eq!(style.foreground, palette(BACKGROUND));
}

#[test]
fn status_line_styles_every_other_segment_dim() {
    let line = status_line(&save_prompt_state());
    let dim: Vec<&Segment> = line.left[1..].iter().chain(line.right.iter()).collect();
    assert_eq!(dim.len(), 5);
    for segment in dim {
        assert!(!segment.style.bold);
        assert!(segment.style.background.is_some());
        assert_eq!(
            segment.style.background.map(|(r, g, b, _)| (r, g, b)),
            Some((0, 0, 0))
        );
        assert_eq!(segment.style.foreground, None);
    }
}

#[test]
fn status_line_separates_the_mode_from_the_filename_with_a_vertical_bar() {
    let state = new_state(vec![], Mode::Command, None);
    assert_eq!(status_line(&state).left[1].text, " \u{2502} ");
}

#[test]
fn status_line_shows_default_filename_in_command_mode() {
    let state = new_state(vec![], Mode::Command, None);
    assert_eq!(status_line(&state).left[2].text, "diagram.dre");
}

#[test]
fn status_line_marks_dirty_state_with_a_plus_marker() {
    let mut state = new_state(vec![], Mode::Command, None);
    state.dirty = true;
    assert_eq!(status_line(&state).left[2].text, "diagram.dre[+]");
}

#[test]
fn status_line_shows_the_save_to_path_as_is() {
    let mut state = new_state(vec![], Mode::Command, None);
    state.save_to = Some("/foo/bar.dre".to_string());
    assert_eq!(status_line(&state).left[2].text, "/foo/bar.dre");
}

#[test]
fn status_line_shows_the_mode_and_filename_in_insert_mode() {
    let state = new_state(vec![], Mode::Insert, None);
    let line = status_line(&state);
    assert_eq!(
        texts(&line.left),
        [" EDITING ", " \u{2502} ", "diagram.dre"]
    );
}

#[test]
fn status_line_shows_zero_boxes_when_empty() {
    let state = new_state(vec![], Mode::Command, None);
    assert_eq!(status_line(&state).right[0].text, "0 boxes");
}

#[test]
fn status_line_counts_nested_children_in_box_count() {
    let state = new_state(
        vec![node_with_children("a", vec![node("b"), node("c")])],
        Mode::Command,
        None,
    );
    assert_eq!(status_line(&state).right[0].text, "3 boxes");
}

#[test]
fn status_line_always_pluralizes_box_count() {
    let state = new_state(vec![node("a")], Mode::Command, None);
    assert_eq!(status_line(&state).right[0].text, "1 boxes");
}

#[test]
fn status_line_ends_with_a_bullet_and_dre() {
    let state = new_state(vec![], Mode::Command, None);
    let line = status_line(&state);
    assert_eq!(texts(&line.right), ["0 boxes", " \u{2022} ", "dre"]);
}

#[test]
fn status_line_shows_save_prompt_text_and_keeps_the_right_side() {
    let line = status_line(&save_prompt_state());
    assert_eq!(line.left[2].text, format!("Save as: diagram.dre{CURSOR}"));
    assert_eq!(texts(&line.right), ["0 boxes", " \u{2022} ", "dre"]);
}
