use base64::engine::general_purpose::STANDARD;
use base64::Engine as _;
use dre::kitty::{chunks, encode, escape, more, transmission, CHUNK_SIZE};
use dre::tree_editor::{
    at, colour_row, grow, handle_key, next_colour, rewrite, Edit, Node, State, PAD, PALETTE_SIZE, PLAIN,
};
use flate2::read::ZlibDecoder;
use std::io::Read as _;

#[test]
fn lib_chunks_splits_at_boundaries() {
    let payload = "a".repeat(10);
    let result = chunks(&payload, 3);
    assert_eq!(result, vec!["aaa", "aaa", "aaa", "a"]);
}

#[test]
fn lib_chunks_exact_multiple_of_chunk_size() {
    let payload = "a".repeat(6);
    let result = chunks(&payload, 3);
    assert_eq!(result, vec!["aaa", "aaa"]);
}

#[test]
fn lib_chunks_single_chunk_when_smaller_than_size() {
    let payload = "abc";
    let result = chunks(payload, 100);
    assert_eq!(result, vec!["abc"]);
}

#[test]
fn lib_more_returns_zero_for_last_index() {
    let list = vec!["a".to_string(), "b".to_string(), "c".to_string()];
    assert_eq!(more(&list, 2), 0);
}

#[test]
fn lib_more_returns_one_for_non_last_index() {
    let list = vec!["a".to_string(), "b".to_string(), "c".to_string()];
    assert_eq!(more(&list, 0), 1);
    assert_eq!(more(&list, 1), 1);
}

#[test]
fn lib_more_single_element_list_is_last() {
    let list = vec!["a".to_string()];
    assert_eq!(more(&list, 0), 0);
}

#[test]
fn lib_escape_wraps_keys_and_payload() {
    let result = escape("a=T,f=32", "PAYLOAD");
    assert_eq!(result, "\x1b_Ga=T,f=32;PAYLOAD\x1b\\");
}

#[test]
fn lib_encode_round_trips_through_zlib_and_base64() {
    let pixels: Vec<u8> = (0..=255).collect();
    let encoded = encode(&pixels);
    let compressed = STANDARD.decode(&encoded).unwrap();
    let mut decoder = ZlibDecoder::new(&compressed[..]);
    let mut decompressed = Vec::new();
    decoder.read_to_end(&mut decompressed).unwrap();
    assert_eq!(decompressed, pixels);
}

#[test]
fn lib_transmission_single_chunk_has_expected_header_and_m0() {
    let pixels = vec![1u8, 2, 3, 4];
    let result = transmission(&pixels, 2, 1);

    let expected_payload = encode(&pixels);
    let expected_header = "a=T,f=32,s=2,v=1,o=z,q=2,z=-1,m=0".to_string();
    let expected = escape(&expected_header, &expected_payload);
    assert_eq!(result, expected);
    assert!(result.starts_with("\x1b_Ga=T,f=32,s=2,v=1,o=z,q=2,z=-1,m=0;"));
    assert!(result.ends_with("\x1b\\"));
}

#[test]
fn lib_transmission_multi_chunk_splits_and_sets_more_flag() {
    let mut state: u32 = 0x9E3779B9;
    let pixels: Vec<u8> = (0..8_000u32)
        .map(|_| {
            state = state.wrapping_mul(1664525).wrapping_add(1013904223);
            (state >> 16) as u8
        })
        .collect();
    let result = transmission(&pixels, 100, 100);

    let payload = encode(&pixels);
    let chunk_list = chunks(&payload, CHUNK_SIZE);
    assert!(chunk_list.len() > 1, "expected payload to span multiple chunks");

    let header = format!("a=T,f=32,s=100,v=100,o=z,q=2,z=-1,m={}", more(&chunk_list, 0));
    let mut expected = escape(&header, &chunk_list[0]);
    for (index, chunk) in chunk_list.iter().enumerate().skip(1) {
        let keys = format!("m={}", more(&chunk_list, index));
        expected.push_str(&escape(&keys, chunk));
    }

    assert_eq!(result, expected);
    assert!(result.contains(",m=1;"));
    assert!(result.ends_with("\x1b\\"));
    assert!(result.matches("\x1b_G").count() > 1);
}

fn node(label: &str) -> Node {
    Node { label: label.to_string(), ..Default::default() }
}

fn node_with_children(label: &str, children: Vec<Node>) -> Node {
    Node { label: label.to_string(), children, ..Default::default() }
}

#[test]
fn lib_boxes_are_equal() {
    assert_eq!(Node::default(), Node::default());
}

#[test]
fn lib_boxes_default_to_the_plain_colour() {
    assert_eq!(Node::default().colour, PLAIN);
}

#[test]
fn lib_boxes_default_to_the_plain_fill() {
    assert_eq!(Node::default().fill, PLAIN);
}

#[test]
fn lib_boxes_default_to_an_empty_label() {
    assert_eq!(Node::default(), node(""));
}

#[test]
fn lib_boxes_with_different_labels_are_not_equal() {
    assert_ne!(node("a"), node("b"));
}

#[test]
fn lib_boxes_default_to_no_children() {
    assert_eq!(Node::default().children, Vec::<Node>::new());
}

#[test]
fn lib_boxes_with_different_children_are_not_equal() {
    assert_ne!(
        node_with_children("", vec![node("a")]),
        node_with_children("", vec![node("b")])
    );
}

#[test]
fn lib_new_box_starts_with_square_corners() {
    assert_eq!(node("a").rounded, false);
}

#[test]
fn lib_at_a_single_index_returns_the_top_level_box() {
    let boxes = vec![node("a"), node("b")];
    assert_eq!(at(&boxes, &[1]), node("b"));
}

#[test]
fn lib_at_a_longer_path_walks_into_children() {
    let boxes = vec![node_with_children("a", vec![node("c"), node("d")])];
    assert_eq!(at(&boxes, &[0, 1]), node("d"));
}

#[test]
fn lib_at_a_deep_path_walks_multiple_levels() {
    let boxes = vec![node_with_children(
        "a",
        vec![node_with_children("b", vec![node("c")])],
    )];
    assert_eq!(at(&boxes, &[0, 0, 0]), node("c"));
}

#[test]
fn rewrite_replaces_the_top_level_box() {
    let boxes = vec![node("a"), node("b")];
    let result = rewrite(&boxes, &[1], Edit::Replace(node("z")));
    assert_eq!(result, vec![node("a"), node("z")]);
}

#[test]
fn rewrite_replaces_a_nested_box_and_rebuilds_the_spine() {
    let boxes = vec![node_with_children("a", vec![node("c"), node("d")])];
    let result = rewrite(&boxes, &[0, 1], Edit::Replace(node("z")));
    assert_eq!(
        result,
        vec![node_with_children("a", vec![node("c"), node("z")])]
    );
}

#[test]
fn rewrite_does_not_mutate_the_given_boxes() {
    let boxes = vec![node("a")];
    rewrite(&boxes, &[0], Edit::Replace(node("z")));
    assert_eq!(boxes, vec![node("a")]);
}

#[test]
fn grow_on_the_canvas_appends_a_top_level_box() {
    let (boxes, path) = grow(&[], &[]);
    assert_eq!(boxes, vec![node(PAD)]);
    assert_eq!(path, vec![0]);
}

#[test]
fn grow_on_the_canvas_appends_after_existing_boxes() {
    let (boxes, path) = grow(&[node("a")], &[]);
    assert_eq!(boxes, vec![node("a"), node(PAD)]);
    assert_eq!(path, vec![1]);
}

#[test]
fn grow_on_a_box_appends_a_child() {
    let (boxes, path) = grow(&[node("a")], &[0]);
    assert_eq!(boxes, vec![node_with_children("a", vec![node(PAD)])]);
    assert_eq!(path, vec![0, 0]);
}

#[test]
fn grow_on_a_box_with_a_child_appends_a_second_child() {
    let boxes = vec![node_with_children("a", vec![node("c")])];
    let (boxes, path) = grow(&boxes, &[0]);
    assert_eq!(
        boxes,
        vec![node_with_children("a", vec![node("c"), node(PAD)])]
    );
    assert_eq!(path, vec![0, 1]);
}

#[test]
fn grow_does_not_mutate_the_given_boxes() {
    let boxes = vec![node("a")];
    grow(&boxes, &[]);
    assert_eq!(boxes, vec![node("a")]);
}

#[test]
fn lib_next_colour_cycles_through_the_palette_and_back_to_plain() {
    let mut colour = PLAIN;
    for _ in 0..PALETTE_SIZE {
        colour = next_colour(colour);
    }
    assert_ne!(colour, PLAIN);
    colour = next_colour(colour);
    assert_eq!(colour, PLAIN);
}

#[test]
fn lib_colour_row_advances_uniformly_coloured_siblings() {
    let boxes = vec![node("a"), node("b")];
    let mut a = node("a");
    a.colour = next_colour(PLAIN);
    let mut b = node("b");
    b.colour = next_colour(PLAIN);
    assert_eq!(colour_row(&boxes, &[0]), vec![a, b]);
}

#[test]
fn lib_colour_row_sets_mixed_siblings_to_the_first_palette_colour() {
    let mut a = node("a");
    a.colour = 0;
    let mut b = node("b");
    b.colour = 1;
    let boxes = vec![a, b];
    let mut expected_a = node("a");
    expected_a.colour = 0;
    let mut expected_b = node("b");
    expected_b.colour = 0;
    assert_eq!(colour_row(&boxes, &[0]), vec![expected_a, expected_b]);
}

#[test]
fn colour_row_does_not_mutate_the_given_boxes() {
    let boxes = vec![node("a"), node("b")];
    colour_row(&boxes, &[0]);
    assert_eq!(boxes, vec![node("a"), node("b")]);
}

fn new_state(boxes: Vec<Node>, mode: &str, selected: Vec<i64>) -> State {
    State { boxes, running: true, mode: mode.to_string(), selected, before: None }
}

#[test]
fn lib_state_starts_running() {
    let state = new_state(vec![], "command", vec![]);
    assert!(state.running);
}

#[test]
fn lib_state_starts_in_command_mode() {
    let state = new_state(vec![], "command", vec![]);
    assert_eq!(state.mode, "command");
}

#[test]
fn lib_b_on_an_empty_canvas_appends_a_box_enters_insert_and_selects_it() {
    let state = new_state(vec![], "command", vec![]);
    let result: State = handle_key(&state, "b");
    assert_eq!(result.boxes, vec![node(PAD)]);
    assert_eq!(result.mode, "insert");
    assert_eq!(result.selected, vec![0]);
    assert!(result.running);
}

#[test]
fn lib_b_on_an_empty_canvas_does_not_mutate_the_given_state() {
    let state = new_state(vec![], "command", vec![]);
    handle_key(&state, "b");
    assert_eq!(state.boxes, Vec::<Node>::new());
}

#[test]
fn lib_b_on_a_selected_box_appends_and_selects_a_child() {
    let state = new_state(vec![node("a")], "command", vec![0]);
    let result = handle_key(&state, "b");
    assert_eq!(result.boxes, vec![node_with_children("a", vec![node(PAD)])]);
    assert_eq!(result.selected, vec![0, 0]);
    assert_eq!(result.mode, "insert");
}

#[test]
fn lib_a_second_b_on_the_same_parent_places_a_second_child() {
    let state = new_state(vec![node("a")], "command", vec![0]);
    let state = handle_key(&state, "b");
    let state = handle_key(&state, "\x1b");
    let state = handle_key(&state, "h");
    let result = handle_key(&state, "b");
    assert_eq!(
        result.boxes,
        vec![node_with_children("a", vec![node(""), node(PAD)])]
    );
    assert_eq!(result.selected, vec![0, 1]);
}

#[test]
fn lib_unknown_key_returns_the_state_unchanged() {
    let state = new_state(vec![node("a")], "command", vec![]);
    let result = handle_key(&state, "x");
    assert_eq!(result.boxes, state.boxes);
    assert_eq!(result.selected, state.selected);
    assert_eq!(result.mode, state.mode);
    assert_eq!(result.running, state.running);
}

#[test]
fn q_stops_the_state_and_preserves_boxes_and_selection() {
    let state = new_state(vec![node("a")], "command", vec![0]);
    let result = handle_key(&state, "q");
    assert!(!result.running);
    assert_eq!(result.boxes, vec![node("a")]);
    assert_eq!(result.selected, vec![0]);
    assert_eq!(result.mode, "command");
}

#[test]
fn lib_insert_mode_is_dispatched_separately() {
    let state = new_state(vec![node(PAD)], "insert", vec![0]);
    let result = handle_key(&state, "q");
    assert!(result.running);
}

#[test]
fn lib_s_on_a_top_level_box_appends_a_sibling() {
    let state = new_state(vec![node("a")], "command", vec![0]);
    let result = handle_key(&state, "s");
    assert_eq!(result.boxes, vec![node("a"), node(PAD)]);
    assert_eq!(result.selected, vec![1]);
    assert_eq!(result.mode, "insert");
}

#[test]
fn lib_s_on_a_child_box_appends_a_sibling_to_the_parents_children() {
    let boxes = vec![node_with_children("a", vec![node("b")])];
    let state = new_state(boxes, "command", vec![0, 0]);
    let result = handle_key(&state, "s");
    assert_eq!(
        result.boxes,
        vec![node_with_children("a", vec![node("b"), node(PAD)])]
    );
    assert_eq!(result.selected, vec![0, 1]);
}

#[test]
fn lib_s_with_no_selection_returns_the_state_unchanged() {
    let state = new_state(vec![node("a")], "command", vec![]);
    let result = handle_key(&state, "s");
    assert_eq!(result.boxes, vec![node("a")]);
    assert_eq!(result.selected, Vec::<i64>::new());
}

#[test]
fn lib_h_selects_the_parent_and_is_a_no_op_at_the_top() {
    let boxes = vec![node_with_children("a", vec![node("c")])];
    let state = new_state(boxes, "command", vec![0, 0]);
    let result = handle_key(&state, "h");
    assert_eq!(result.selected, vec![0]);

    let result = result;
    let result = handle_key(&result, "h");
    assert_eq!(result.selected, vec![0]);
}

#[test]
fn lib_h_on_an_empty_canvas_returns_the_state_unchanged() {
    let state = new_state(vec![], "command", vec![]);
    let result = handle_key(&state, "h");
    assert_eq!(result.selected, Vec::<i64>::new());
}

#[test]
fn lib_h_in_insert_mode_types_the_letter_h() {
    let state = new_state(vec![node(&format!("a{PAD}"))], "insert", vec![0]);
    let result = handle_key(&state, "h");
    assert_eq!(result.boxes, vec![node(&format!("ah{PAD}"))]);
}

#[test]
fn lib_l_selects_the_first_child_or_keeps_selection_with_none() {
    let boxes = vec![node_with_children("a", vec![node("c"), node("d")])];
    let state = new_state(boxes, "command", vec![0]);
    let result = handle_key(&state, "l");
    assert_eq!(result.selected, vec![0, 0]);

    let state = new_state(vec![node("a")], "command", vec![0]);
    let result = handle_key(&state, "l");
    assert_eq!(result.selected, vec![0]);
}

#[test]
fn lib_j_and_k_move_between_siblings_with_bounds() {
    let state = new_state(vec![node("a"), node("b")], "command", vec![0]);
    let result = handle_key(&state, "j");
    assert_eq!(result.selected, vec![1]);

    let state = new_state(vec![node("a"), node("b")], "command", vec![1]);
    let result = handle_key(&state, "j");
    assert_eq!(result.selected, vec![1]);

    let state = new_state(vec![node("a"), node("b")], "command", vec![1]);
    let result = handle_key(&state, "k");
    assert_eq!(result.selected, vec![0]);

    let state = new_state(vec![node("a"), node("b")], "command", vec![0]);
    let result = handle_key(&state, "k");
    assert_eq!(result.selected, vec![0]);
}

#[test]
fn lib_i_enters_insert_and_appends_pad_to_the_selected_boxs_label() {
    let state = new_state(vec![node("a"), node("b")], "command", vec![1]);
    let result = handle_key(&state, "i");
    assert_eq!(result.mode, "insert");
    assert_eq!(result.selected, vec![1]);
    assert_eq!(result.boxes, vec![node("a"), node(&format!("b{PAD}"))]);
}

#[test]
fn lib_i_on_an_empty_canvas_returns_the_state_unchanged() {
    let state = new_state(vec![], "command", vec![]);
    let result = handle_key(&state, "i");
    assert_eq!(result.mode, "command");
    assert_eq!(result.boxes, Vec::<Node>::new());
}

#[test]
fn lib_capital_i_clears_the_selected_boxs_label() {
    let state = new_state(vec![node("a"), node("b")], "command", vec![1]);
    let result = handle_key(&state, "I");
    assert_eq!(result.mode, "insert");
    assert_eq!(result.boxes, vec![node("a"), node(PAD)]);
}

#[test]
fn lib_typing_appends_to_the_selected_box_label() {
    let state = new_state(vec![node(&format!("h{PAD}"))], "insert", vec![0]);
    let result = handle_key(&state, "i");
    assert_eq!(result.boxes, vec![node(&format!("hi{PAD}"))]);
}

#[test]
fn lib_space_and_tilde_are_printable() {
    let state = new_state(vec![node(&format!("a{PAD}"))], "insert", vec![0]);
    let result = handle_key(&state, " ");
    assert_eq!(result.boxes, vec![node(&format!("a {PAD}"))]);

    let state = new_state(vec![node(PAD)], "insert", vec![0]);
    let result = handle_key(&state, "~");
    assert_eq!(result.boxes, vec![node(&format!("~{PAD}"))]);
}

#[test]
fn lib_backspace_drops_the_last_character_and_is_a_no_op_when_empty() {
    let state = new_state(vec![node(&format!("hi{PAD}"))], "insert", vec![0]);
    let result = handle_key(&state, "\x7f");
    assert_eq!(result.boxes, vec![node(&format!("h{PAD}"))]);

    let state = new_state(vec![node(PAD)], "insert", vec![0]);
    let result = handle_key(&state, "\x7f");
    assert_eq!(result.boxes, vec![node(PAD)]);
}

#[test]
fn lib_esc_returns_to_command_mode_and_trims_pad() {
    let state = new_state(vec![node(&format!("hi{PAD}"))], "insert", vec![0]);
    let result = handle_key(&state, "\x1b");
    assert_eq!(result.mode, "command");
    assert_eq!(result.boxes, vec![node("hi")]);
}

#[test]
fn lib_control_and_non_ascii_characters_return_the_state_unchanged() {
    let state = new_state(vec![node(&format!("hi{PAD}"))], "insert", vec![0]);
    let result = handle_key(&state, "\x01");
    assert_eq!(result.boxes, vec![node(&format!("hi{PAD}"))]);

    let result = handle_key(&state, "é");
    assert_eq!(result.boxes, vec![node(&format!("hi{PAD}"))]);
}

#[test]
fn cycle_colour_and_fill_advance_independently_and_cycle_back_to_plain() {
    let state = new_state(vec![node("a")], "command", vec![0]);
    let result = handle_key(&state, "c");
    let mut expected = node("a");
    expected.colour = next_colour(PLAIN);
    assert_eq!(result.boxes, vec![expected]);
    assert_eq!(result.boxes[0].label, "a");

    let state = new_state(vec![node("a")], "command", vec![0]);
    let result = handle_key(&state, "f");
    let mut expected = node("a");
    expected.fill = next_colour(PLAIN);
    assert_eq!(result.boxes, vec![expected]);

    let mut state_boxed = vec![node("a")];
    let mut colour = PLAIN;
    for _ in 0..=PALETTE_SIZE {
        let s = new_state(state_boxed.clone(), "command", vec![0]);
        let result = handle_key(&s, "c");
        state_boxed = result.boxes;
        colour = state_boxed[0].colour;
    }
    assert_eq!(colour, PLAIN);
}

#[test]
fn lib_toggle_rounded_flips_and_flips_back() {
    let state = new_state(vec![node("a")], "command", vec![0]);
    let result = handle_key(&state, "r");
    assert_eq!(result.boxes[0].rounded, true);
    let state = new_state(result.boxes.clone(), "command", vec![0]);
    let result = handle_key(&state, "r");
    assert_eq!(result.boxes[0].rounded, false);
}

#[test]
fn lib_capital_c_on_a_top_level_box_does_nothing() {
    let state = new_state(vec![node("a"), node("b")], "command", vec![0]);
    let result = handle_key(&state, "C");
    assert_eq!(result.boxes, state.boxes);
    assert_eq!(result.selected, state.selected);
}

#[test]
fn lib_capital_c_advances_uniformly_coloured_siblings() {
    let boxes = vec![node_with_children("a", vec![node("c"), node("d")])];
    let state = new_state(boxes, "command", vec![0, 1]);
    let result = handle_key(&state, "C");
    let mut c = node("c");
    c.colour = next_colour(PLAIN);
    let mut d = node("d");
    d.colour = next_colour(PLAIN);
    assert_eq!(result.boxes, vec![node_with_children("a", vec![c, d])]);
}

#[test]
fn lib_u_after_b_restores_boxes_and_selected() {
    let before = new_state(vec![], "command", vec![]);
    let after = handle_key(&before, "b");
    let after = after;
    let after_escape = handle_key(&after, "\x1b");
    let after_escape = after_escape;
    let undone = handle_key(&after_escape, "u");
    assert_eq!(undone.boxes, before.boxes);
    assert_eq!(undone.selected, before.selected);
    assert_eq!(undone.mode, before.mode);
}

#[test]
fn lib_u_after_c_restores_boxes() {
    let before = new_state(vec![node("a")], "command", vec![0]);
    let after = handle_key(&before, "c");
    let after = after;
    let undone = handle_key(&after, "u");
    assert_eq!(undone.boxes, before.boxes);
}

#[test]
fn lib_u_after_c_with_nothing_selected_is_a_no_op() {
    let state = new_state(vec![node("a")], "command", vec![]);
    let after = handle_key(&state, "c");
    let after = after;
    let undone = handle_key(&after, "u");
    assert_eq!(undone.boxes, state.boxes);
    assert_eq!(undone.selected, state.selected);
}

#[test]
fn lib_u_with_no_previous_action_leaves_state_unchanged() {
    let state = new_state(vec![], "command", vec![]);
    let result = handle_key(&state, "u");
    assert_eq!(result.boxes, Vec::<Node>::new());
    assert_eq!(result.selected, Vec::<i64>::new());
}

#[test]
fn lib_u_twice_in_a_row_does_not_redo() {
    let state = new_state(vec![node("a")], "command", vec![0]);
    let after_command = handle_key(&state, "c");
    let after_command = after_command;
    let after_first_undo = handle_key(&after_command, "u");
    let after_first_undo = after_first_undo;
    let after_second_undo = handle_key(&after_first_undo, "u");
    assert_eq!(after_second_undo.boxes, after_first_undo.boxes);
    assert_eq!(after_second_undo.selected, after_first_undo.selected);
}

#[test]
fn lib_movement_keys_do_not_clobber_an_existing_undo_snapshot() {
    let boxes = vec![node_with_children("a", vec![node("c"), node("d")])];
    let before = new_state(boxes, "command", vec![0, 0]);
    let after_command = handle_key(&before, "c");
    let after_command = after_command;
    let navigated = handle_key(&after_command, "j");
    let navigated = navigated;
    let navigated = handle_key(&navigated, "h");
    let navigated = navigated;
    let navigated = handle_key(&navigated, "l");
    let navigated = navigated;
    let navigated = handle_key(&navigated, "k");
    let navigated = navigated;
    let undone = handle_key(&navigated, "u");
    assert_eq!(undone.boxes, before.boxes);
    assert_eq!(undone.selected, before.selected);
}

#[test]
fn lib_q_does_not_clobber_an_existing_undo_snapshot() {
    let before = new_state(vec![node("a")], "command", vec![0]);
    let after_command = handle_key(&before, "c");
    let after_command = after_command;
    let after_quit = handle_key(&after_command, "q");
    let after_quit = after_quit;
    let undone = handle_key(&after_quit, "u");
    assert_eq!(undone.boxes, before.boxes);
    assert_eq!(undone.selected, before.selected);
}

#[test]
fn lib_u_after_an_insert_session_undoes_the_b_that_started_it() {
    let before = new_state(vec![], "command", vec![]);
    let after_b = handle_key(&before, "b");
    let after_b = after_b;
    let after_typing = handle_key(&after_b, "h");
    let after_typing = after_typing;
    let after_typing = handle_key(&after_typing, "i");
    let after_typing = after_typing;
    let after_escape = handle_key(&after_typing, "\x1b");
    let after_escape = after_escape;
    let undone = handle_key(&after_escape, "u");
    assert_eq!(undone.boxes, before.boxes);
    assert_eq!(undone.selected, before.selected);
}

#[test]
fn lib_u_after_capital_i_restores_the_boxs_previous_label() {
    let before = new_state(vec![node("a")], "command", vec![0]);
    let after = handle_key(&before, "I");
    let after = after;
    let after_escape = handle_key(&after, "\x1b");
    let after_escape = after_escape;
    let undone = handle_key(&after_escape, "u");
    assert_eq!(undone.boxes, before.boxes);
}

#[test]
fn a_key_of_several_printable_characters_is_typed_whole() {
    let state = new_state(vec![node(&format!("a{PAD}"))], "insert", vec![0]);
    let result = handle_key(&state, "bc");
    assert_eq!(result.boxes, vec![node(&format!("abc{PAD}"))]);
}

#[test]
fn a_key_that_starts_with_a_tilde_is_typed_only_alone() {
    let state = new_state(vec![node(&format!("a{PAD}"))], "insert", vec![0]);
    let result = handle_key(&state, "~x");
    assert_eq!(result.boxes, vec![node(&format!("a{PAD}"))]);
}

#[test]
fn next_colour_brings_a_negative_colour_onto_the_cycle() {
    assert_eq!(next_colour(-3), 4);
    assert_eq!(next_colour(4), PLAIN);
    assert_eq!(next_colour(9), 4);
}

#[test]
fn undo_after_colouring_a_row_gives_back_the_row() {
    let boxes = vec![node_with_children("a", vec![node("c"), node("d")])];
    let state = new_state(boxes.clone(), "command", vec![0, 1]);
    let coloured = handle_key(&state, "C");
    assert_ne!(coloured.boxes, boxes);
    let undone = handle_key(&coloured, "u");
    assert_eq!(undone.boxes, boxes);
    assert_eq!(undone.selected, vec![0, 1]);
    assert_eq!(undone.mode, "command");
    assert!(undone.before.is_none());
}

#[test]
fn moving_and_quitting_keep_the_undo_state() {
    let boxes = vec![node("a"), node("b")];
    let state = new_state(boxes, "command", vec![0]);
    let coloured = handle_key(&state, "c");
    let moved = handle_key(&coloured, "j");
    let quit = handle_key(&moved, "q");
    let undone = handle_key(&quit, "u");
    assert_eq!(undone.boxes, vec![node("a"), node("b")]);
    assert_eq!(undone.selected, vec![0]);
    assert!(undone.running);
}

#[test]
fn an_empty_key_in_insert_mode_changes_nothing() {
    let state = new_state(vec![node(&format!("hi{PAD}"))], "insert", vec![0]);
    let result = handle_key(&state, "");
    assert_eq!(result.boxes, vec![node(&format!("hi{PAD}"))]);
    assert_eq!(result.mode, "insert");
}

#[test]
fn any_run_of_keys_leaves_the_selection_on_a_box() {
    let keys = [
        "b", "x", "\x1b", "b", "y", "\x1b", "s", "z", "\x1b", "h", "l", "j", "k", "C", "c", "f", "r",
        "I", "w", "\x7f", "\x1b", "u", "u", "i", "\x1b", "h", "h", "s", "\x1b", "j", "q",
    ];
    let mut state = new_state(vec![], "command", vec![]);
    for key in keys {
        state = handle_key(&state, key);
        if !state.selected.is_empty() {
            at(&state.boxes, &state.selected);
        }
        if state.mode == "insert" {
            assert!(!state.selected.is_empty());
        }
    }
    assert!(!state.running);
}

#[test]
fn moves_that_read_only_the_path_work_on_any_selection() {
    let state = new_state(vec![node("a")], "command", vec![7, 3]);
    assert_eq!(handle_key(&state, "h").selected, vec![7]);
    assert_eq!(handle_key(&state, "k").selected, vec![7, 2]);
    assert_eq!(handle_key(&state, "x").selected, vec![7, 3]);
    assert!(!handle_key(&state, "q").running);
}

#[test]
fn undo_after_a_new_sibling_in_the_tree_editor_takes_it_back() {
    let state = new_state(vec![node("a")], "command", vec![0]);
    let grown = handle_key(&handle_key(&state, "s"), "\x1b");
    assert_eq!(grown.boxes.len(), 2);
    let undone = handle_key(&grown, "u");
    assert_eq!(undone.boxes, vec![node("a")]);
    assert_eq!(undone.selected, vec![0]);
}

#[test]
fn j_reads_only_the_row_so_an_index_past_it_stays_put() {
    let boxes = vec![node_with_children("a", vec![node("x"), node("y")])];
    let state = new_state(boxes, "command", vec![0, 7]);
    let result = handle_key(&state, "j");
    assert_eq!(result.selected, vec![0, 7]);
    assert_eq!(result.boxes, vec![node_with_children("a", vec![node("x"), node("y")])]);
    let top = new_state(vec![node("a"), node("b")], "command", vec![5]);
    assert_eq!(handle_key(&top, "j").selected, vec![5]);
}

#[test]
fn j_from_a_negative_index_steps_up_by_one() {
    let state = new_state(vec![node("a"), node("b")], "command", vec![-3]);
    let result = handle_key(&state, "j");
    assert_eq!(result.selected, vec![-2]);
}

#[test]
fn s_reads_only_the_parent_so_a_stale_index_still_grows_a_sibling() {
    let state = new_state(vec![node("a")], "command", vec![0, 9]);
    let result = handle_key(&state, "s");
    assert_eq!(result.boxes, vec![node_with_children("a", vec![node(PAD)])]);
    assert_eq!(result.selected, vec![0, 0]);
    assert_eq!(result.mode, "insert");
}

#[test]
fn capital_c_on_a_top_level_selection_past_the_boxes_changes_nothing() {
    let state = new_state(vec![], "command", vec![7]);
    let result = handle_key(&state, "C");
    assert!(result.boxes.is_empty());
    assert_eq!(result.selected, vec![7]);
}

#[test]
fn capital_c_recolours_the_row_under_a_valid_parent_whatever_the_last_index() {
    let boxes = vec![node_with_children("a", vec![node("x"), node("y")])];
    let state = new_state(boxes, "command", vec![0, 9]);
    let result = handle_key(&state, "C");
    let mut x = node("x");
    x.colour = next_colour(PLAIN);
    let mut y = node("y");
    y.colour = next_colour(PLAIN);
    assert_eq!(result.boxes, vec![node_with_children("a", vec![x, y])]);
}
