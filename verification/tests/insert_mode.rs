use dre::diagram::{node, node_with_children, Path};
use dre::insert_mode::{format_keymap_markdown, insert_keymap, parse, Command};
use dre::state::{handle_key, new_state, Mode, State, PAD};


#[test]
fn parse_maps_escape_to_commit() {
    assert_eq!(parse("\x1b"), Some(Command::Commit));
}

#[test]
fn parse_maps_delete_to_backspace() {
    assert_eq!(parse("\x7f"), Some(Command::Backspace));
}

#[test]
fn parse_maps_the_lower_printable_boundary_to_append() {
    assert_eq!(parse("\x20"), Some(Command::Append('\x20')));
}

#[test]
fn parse_maps_the_upper_printable_boundary_to_append() {
    assert_eq!(parse("\x7e"), Some(Command::Append('\x7e')));
}

#[test]
fn parse_returns_nothing_just_outside_the_printable_range() {
    assert_eq!(parse("\x1f"), None);
    assert_eq!(parse("\x01"), None);
    assert_eq!(parse("é"), None);
}

#[test]
fn parse_maps_enter_to_commit_and_add_child() {
    assert_eq!(parse("\r"), Some(Command::CommitAndAddChild));
}

#[test]
fn parse_does_not_map_newline_or_backspace_control_to_commit_and_add_child() {
    assert_eq!(parse("\n"), None);
    assert_eq!(parse("\x08"), None);
}

#[test]
fn enter_finishes_the_box_and_adds_an_empty_child_ready_for_typing() {
    let state = new_state(
        vec![node(&format!("hi{PAD}"))],
        Mode::Insert,
        Some(Path {
            ancestors: vec![],
            index: 0,
        }),
    );
    let result = handle_key(state, "\r");
    assert_eq!(
        result.doc.boxes,
        vec![node_with_children("hi", vec![node(PAD)])]
    );
    assert_eq!(
        result.doc.selected,
        Some(Path {
            ancestors: vec![0],
            index: 0
        })
    );
    assert_eq!(result.mode, Mode::Insert);
}

#[test]
fn enter_on_an_empty_label_still_creates_an_empty_child() {
    let state = new_state(
        vec![node(PAD)],
        Mode::Insert,
        Some(Path {
            ancestors: vec![],
            index: 0,
        }),
    );
    let result = handle_key(state, "\r");
    assert_eq!(
        result.doc.boxes,
        vec![node_with_children("", vec![node(PAD)])]
    );
    assert_eq!(
        result.doc.selected,
        Some(Path {
            ancestors: vec![0],
            index: 0
        })
    );
    assert_eq!(result.mode, Mode::Insert);
}

#[test]
fn u_after_enter_and_esc_reverts_the_child_and_keeps_the_label() {
    let state = new_state(
        vec![node(&format!("hi{PAD}"))],
        Mode::Insert,
        Some(Path {
            ancestors: vec![],
            index: 0,
        }),
    );
    let state = handle_key(state, "\r");
    let state = handle_key(state, "\x1b");
    let result = handle_key(state, "u");
    assert_eq!(result.doc.boxes, vec![node("hi")]);
    assert_eq!(
        result.doc.selected,
        Some(Path {
            ancestors: vec![],
            index: 0
        })
    );
    assert_eq!(result.mode, Mode::Command);
}

#[test]
fn repeated_enter_drills_deeper_creating_a_child_then_a_grandchild() {
    let state = new_state(
        vec![node(&format!("a{PAD}"))],
        Mode::Insert,
        Some(Path {
            ancestors: vec![],
            index: 0,
        }),
    );
    let state = handle_key(state, "\r");
    let result = handle_key(state, "\r");
    assert_eq!(
        result.doc.boxes,
        vec![node_with_children(
            "a",
            vec![node_with_children("", vec![node(PAD)])]
        )]
    );
    assert_eq!(
        result.doc.selected,
        Some(Path {
            ancestors: vec![0, 0],
            index: 0
        })
    );
    assert_eq!(result.mode, Mode::Insert);
}

#[test]
fn insert_mode_h_in_insert_mode_types_the_letter_h() {
    let state = new_state(
        vec![node(&format!("a{PAD}"))],
        Mode::Insert,
        Some(Path {
            ancestors: vec![],
            index: 0,
        }),
    );
    let result = handle_key(state, "h");
    assert_eq!(result.doc.boxes, vec![node(&format!("ah{PAD}"))]);
}

#[test]
fn insert_mode_typing_appends_to_the_selected_box_label() {
    let state = new_state(
        vec![node(&format!("h{PAD}"))],
        Mode::Insert,
        Some(Path {
            ancestors: vec![],
            index: 0,
        }),
    );
    let result = handle_key(state, "i");
    assert_eq!(result.doc.boxes, vec![node(&format!("hi{PAD}"))]);
}

#[test]
fn insert_mode_space_and_tilde_are_printable() {
    let state = new_state(
        vec![node(&format!("a{PAD}"))],
        Mode::Insert,
        Some(Path {
            ancestors: vec![],
            index: 0,
        }),
    );
    let result = handle_key(state, " ");
    assert_eq!(result.doc.boxes, vec![node(&format!("a {PAD}"))]);

    let state = new_state(
        vec![node(PAD)],
        Mode::Insert,
        Some(Path {
            ancestors: vec![],
            index: 0,
        }),
    );
    let result = handle_key(state, "~");
    assert_eq!(result.doc.boxes, vec![node(&format!("~{PAD}"))]);
}

#[test]
fn insert_mode_backspace_drops_the_last_character_and_is_a_no_op_when_empty() {
    let state = new_state(
        vec![node(&format!("hi{PAD}"))],
        Mode::Insert,
        Some(Path {
            ancestors: vec![],
            index: 0,
        }),
    );
    let result = handle_key(state, "\x7f");
    assert_eq!(result.doc.boxes, vec![node(&format!("h{PAD}"))]);

    let state = new_state(
        vec![node(PAD)],
        Mode::Insert,
        Some(Path {
            ancestors: vec![],
            index: 0,
        }),
    );
    let result = handle_key(state, "\x7f");
    assert_eq!(result.doc.boxes, vec![node(PAD)]);
}

#[test]
fn insert_mode_esc_returns_to_command_mode_and_trims_pad() {
    let state = new_state(
        vec![node(&format!("hi{PAD}"))],
        Mode::Insert,
        Some(Path {
            ancestors: vec![],
            index: 0,
        }),
    );
    let result = handle_key(state, "\x1b");
    assert_eq!(result.mode, Mode::Command);
    assert_eq!(result.doc.boxes, vec![node("hi")]);
}

#[test]
fn insert_mode_control_and_non_ascii_characters_return_the_state_unchanged() {
    let state = new_state(
        vec![node(&format!("hi{PAD}"))],
        Mode::Insert,
        Some(Path {
            ancestors: vec![],
            index: 0,
        }),
    );
    let result = handle_key(state.clone(), "\x01");
    assert_eq!(result.doc.boxes, vec![node(&format!("hi{PAD}"))]);

    let result = handle_key(state, "é");
    assert_eq!(result.doc.boxes, vec![node(&format!("hi{PAD}"))]);
}

#[test]
fn insert_mode_insert_mode_is_dispatched_separately() {
    let state = new_state(
        vec![node(PAD)],
        Mode::Insert,
        Some(Path {
            ancestors: vec![],
            index: 0,
        }),
    );
    let result = handle_key(state, "q");
    assert!(result.running);
}

#[test]
fn digit_in_insert_mode_types_the_digit_as_label_text() {
    for key in ["0", "1", "2", "3", "4", "5", "6", "7", "8", "9"] {
        let state = new_state(
            vec![node(&format!("a{PAD}"))],
            Mode::Insert,
            Some(Path {
                ancestors: vec![],
                index: 0,
            }),
        );
        let result = handle_key(state, key);
        assert_eq!(result.doc.boxes, vec![node(&format!("a{key}{PAD}"))]);
        assert_eq!(result.mode, Mode::Insert);
        assert_eq!(
            result.doc.selected,
            Some(Path {
                ancestors: vec![],
                index: 0
            })
        );
    }
}

#[test]
fn insert_keymap_agrees_with_parse() {
    let raw_for = |display: &str| match display {
        "Enter" => "\r",
        "Esc" => "\x1b",
        "Backspace" => "\x7f",
        _ => panic!("unknown display key {display}"),
    };
    let keymap = insert_keymap();
    let display_keys: Vec<&str> = keymap
        .iter()
        .flat_map(|binding| binding.keys.iter())
        .copied()
        .collect();
    assert_eq!(display_keys, vec!["Enter", "Esc", "Backspace"]);
    let mut unique = display_keys.clone();
    unique.sort_unstable();
    unique.dedup();
    assert_eq!(unique.len(), display_keys.len());
    for binding in &keymap {
        for display in &binding.keys {
            assert_eq!(parse(raw_for(display)), Some(binding.command));
        }
    }
}

#[test]
fn the_insert_keymap_table_lists_the_named_keys() {
    assert_eq!(
        format_keymap_markdown(),
        "| Key | Description |\n| --- | --- |\n| `Enter` | Finish the box and add a child box |\n| `Esc` | Switch to command mode |\n| `Backspace` | Remove the last character |\n"
    );
}
