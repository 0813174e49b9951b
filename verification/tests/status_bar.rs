use dre::palette::{palette, BACKGROUND};
use dre::render::terminal::{composite, status_line_escapes, Window, BLANK};
use dre::state::{new_state, Mode, State};
use dre::status_line::{status_line, Style};

fn window(cols: i64, rows: i64) -> Window {
    Window { cols, rows, cell_width: 1, cell_height: 1 }
}

fn status_line_output(window: Window, state: &State) -> String {
    status_line_escapes(&status_line(state), window.cols, window.rows)
}

fn strip_escapes(output: &str) -> String {
    let mut visible = String::new();
    let mut chars = output.chars();
    while let Some(c) = chars.next() {
        if c == '\x1b' {
            for skipped in chars.by_ref() {
                if skipped.is_ascii_alphabetic() {
                    break;
                }
            }
        } else {
            visible.push(c);
        }
    }
    visible
}

fn status_line_text(window: Window, state: &State) -> String {
    strip_escapes(&status_line_output(window, state))
}

fn status_line_runs(window: Window, state: &State) -> Vec<String> {
    let output = status_line_output(window, state);
    let body = output.strip_prefix(&format!("\x1b[{};1H", window.rows)).unwrap();
    body.strip_suffix("\x1b[0m").unwrap().split("\x1b[0m").skip(1).map(str::to_string).collect()
}

fn background_escape(style: Style) -> String {
    let (r, g, b) = composite(style.background.unwrap(), palette(BACKGROUND).unwrap());
    format!("\x1b[48;2;{r};{g};{b}m")
}

fn dim_run_prefix(state: &State) -> String {
    background_escape(status_line(state).right[0].style)
}

fn command_state() -> State {
    new_state(vec![], Mode::Command, None)
}

#[test]
fn the_status_line_puts_the_mode_and_filename_on_the_left_and_the_box_count_on_the_right() {
    let state = command_state();
    let text = status_line_text(window(40, 2), &state);
    assert!(text.starts_with(" COMMANDING  \u{2502} diagram.dre"));
    assert!(text.ends_with("0 boxes \u{2022} dre"));
    let left = " COMMANDING  \u{2502} diagram.dre";
    let right = "0 boxes \u{2022} dre";
    let middle: String = text
        .chars()
        .skip(left.chars().count())
        .take(text.chars().count() - left.chars().count() - right.chars().count())
        .collect();
    assert!(!middle.is_empty());
    assert!(middle.chars().all(|c| c == BLANK));
}

#[test]
fn the_status_line_shows_a_dirty_marker_after_the_filename() {
    let mut state = command_state();
    state.dirty = true;
    let text = status_line_text(window(40, 2), &state);
    assert!(text.starts_with(" COMMANDING  \u{2502} diagram.dre[+]"));
}

#[test]
fn the_status_line_fills_the_terminal_width() {
    assert_eq!(status_line_text(window(40, 2), &command_state()).chars().count(), 40);
}

#[test]
fn the_status_line_is_cut_to_the_terminal_width() {
    assert_eq!(status_line_text(window(3, 2), &command_state()), " CO");
}

#[test]
fn the_status_line_is_cut_inside_a_multibyte_segment() {
    let state = command_state();
    assert_eq!(status_line_text(window(13, 2), &state), " COMMANDING  ");
    assert_eq!(status_line_text(window(14, 2), &state), " COMMANDING  \u{2502}");
}

#[test]
fn the_status_line_is_written_to_the_last_row() {
    assert!(status_line_output(window(5, 4), &command_state()).starts_with("\x1b[4;1H"));
}

#[test]
fn on_resize_moves_the_status_line_to_the_new_last_row() {
    assert!(status_line_output(window(5, 9), &command_state()).starts_with("\x1b[9;1H"));
}

#[test]
fn the_status_line_moves_the_cursor_once() {
    let output = status_line_output(window(40, 4), &command_state());
    assert_eq!(output.matches("H").count(), 1);
    assert!(output.starts_with("\x1b[4;1H"));
}

#[test]
fn the_status_line_never_uses_reverse_video() {
    assert!(!status_line_output(window(40, 4), &command_state()).contains("\x1b[7m"));
}

#[test]
fn the_status_line_ends_by_resetting_the_style() {
    assert!(status_line_output(window(40, 4), &command_state()).ends_with("\x1b[0m"));
}

#[test]
fn the_mode_cell_is_bold_on_lime_with_the_background_colour_as_text() {
    let (lr, lg, lb) = palette(0).unwrap();
    let (br, bg, bb) = palette(BACKGROUND).unwrap();
    let expected = format!("\x1b[1m\x1b[48;2;{lr};{lg};{lb}m\x1b[38;2;{br};{bg};{bb}m COMMANDING ");
    assert_eq!(status_line_runs(window(40, 4), &command_state())[0], expected);
}

#[test]
fn everything_after_the_mode_cell_has_a_dim_background_and_no_foreground() {
    let state = command_state();
    let runs = status_line_runs(window(40, 4), &state);
    let dim = dim_run_prefix(&state);
    assert!(runs.len() > 1);
    for run in &runs[1..] {
        assert!(run.starts_with(&dim), "{run:?}");
        assert!(!run.contains("\x1b[38;"));
        assert!(!run.contains("\x1b[1m"));
    }
}

#[test]
fn the_filler_between_left_and_right_is_dim() {
    let state = command_state();
    let runs = status_line_runs(window(40, 4), &state);
    let line = status_line(&state);
    let content_width: usize =
        line.left.iter().chain(&line.right).map(|segment| segment.text.chars().count()).sum();
    let filler = format!("{}{}", dim_run_prefix(&state), " ".repeat(40 - content_width));
    assert!(runs.contains(&filler), "{runs:?}");
}

#[test]
fn the_status_line_can_be_cut_inside_the_mode_cell_keeping_its_style() {
    let runs = status_line_runs(window(3, 2), &command_state());
    assert_eq!(runs.len(), 1);
    let (lr, lg, lb) = palette(0).unwrap();
    assert!(runs[0].starts_with(&format!("\x1b[1m\x1b[48;2;{lr};{lg};{lb}m")));
    assert!(runs[0].ends_with(" CO"));
}

#[test]
fn the_save_prompt_keeps_the_mode_cell_styling_and_dims_the_rest() {
    let mode = Mode::SavePrompt { filename: "diagram.dre".to_string() };
    let state = new_state(vec![], mode, None);
    let runs = status_line_runs(window(60, 4), &state);
    let mode_style = status_line(&state).left[0].style;
    let mode_prefix = format!("\x1b[1m{}", background_escape(mode_style));
    assert!(runs[0].starts_with(&mode_prefix));
    let dim = dim_run_prefix(&state);
    for run in &runs[1..] {
        assert!(run.starts_with(&dim));
    }
    assert_eq!(strip_escapes(&runs.concat()).chars().count(), 60);
}
