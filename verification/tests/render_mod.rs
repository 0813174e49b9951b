use dre::composer::Area;
use dre::diagram::{node, node_with_children, Path};
use dre::layout::{diagram, with_cursor, Label, Placement, PlacementNode};
use dre::palette::{palette, FOREGROUND};
use dre::render::{align_right, body, centre, colour, shift};
use dre::state::{new_state, Mode};

const AREA: Area = Area { col: 3, row: 2, cols: 20, rows: 10 };

fn plain_box() -> PlacementNode<'static> {
    PlacementNode::Box { colour: None, fill: None, rounded: false }
}

fn box_at(x: i64, y: i64, width: i64, height: i64) -> Placement<'static> {
    Placement { node: plain_box(), x, y, width, height }
}

#[test]
fn shift_moves_every_placement_by_the_areas_corner() {
    let placements = shift(vec![box_at(0, 0, 3, 2), box_at(5, 4, 3, 2)], AREA);
    assert_eq!(
        placements,
        vec![box_at(AREA.col, AREA.row, 3, 2), box_at(AREA.col + 5, AREA.row + 4, 3, 2)]
    );
}

fn label_at(text: &str, x: i64, y: i64) -> Placement<'_> {
    Placement {
        node: PlacementNode::Label(Label { text, path: vec![] }),
        x,
        y,
        width: text.chars().count() as i64,
        height: 1,
    }
}

#[test]
fn align_right_meets_the_areas_right_edge_on_the_areas_row() {
    let placed = align_right(vec![label_at("plans", 0, 0)], AREA);
    assert_eq!(placed[0].x + placed[0].width, AREA.col + AREA.cols);
    assert_eq!(placed[0].y, AREA.row);
}

#[test]
fn align_right_keeps_the_width_and_height_of_a_placement() {
    let placed = align_right(vec![label_at("plans", 0, 0)], AREA);
    assert_eq!((placed[0].width, placed[0].height), (5, 1));
}

#[test]
fn centre_puts_the_diagram_in_the_middle_of_the_area() {
    let (width, height) = (6, 4);
    let placed = centre(vec![box_at(0, 0, width, height)], AREA);
    assert_eq!(
        (placed[0].x, placed[0].y),
        (AREA.col + (AREA.cols - width).div_euclid(2), AREA.row + (AREA.rows - height).div_euclid(2))
    );
}

#[test]
fn centre_measures_the_whole_bounding_box() {
    let placed = centre(vec![box_at(0, 0, 3, 2), box_at(5, 4, 3, 2)], AREA);
    let (horizontal, vertical) = ((AREA.cols - 8).div_euclid(2), (AREA.rows - 6).div_euclid(2));
    assert_eq!(
        placed,
        vec![
            box_at(AREA.col + horizontal, AREA.row + vertical, 3, 2),
            box_at(AREA.col + horizontal + 5, AREA.row + vertical + 4, 3, 2),
        ]
    );
}

#[test]
fn centre_of_nothing_is_nothing() {
    assert!(centre(Vec::new(), AREA).is_empty());
}

#[test]
fn centre_centres_an_overflowing_diagram_before_the_areas_corner() {
    let (span, height) = (AREA.cols + 20, 4);
    let placed = centre(vec![box_at(0, 0, span, height)], AREA);
    assert_eq!(
        (placed[0].x, placed[0].y),
        (AREA.col + (AREA.cols - span).div_euclid(2), AREA.row + (AREA.rows - height).div_euclid(2))
    );
    assert!(placed[0].x < AREA.col);
}

#[test]
fn centre_cuts_the_extra_column_of_an_odd_overflow_on_the_left() {
    let span = AREA.cols + 3;
    let placed = centre(vec![box_at(0, 0, span, 4)], AREA);
    let cut_on_left = AREA.col - placed[0].x;
    let cut_on_right = placed[0].x + span - (AREA.col + AREA.cols);
    assert_eq!(cut_on_left, cut_on_right + 1);
}

#[test]
fn colour_of_plain_is_the_default_foreground() {
    assert_eq!(colour(None), palette(FOREGROUND).unwrap());
}

#[test]
fn mod_colour_of_a_palette_index_is_the_palette_entry() {
    assert_eq!(colour(Some(2)), palette(2).unwrap());
}

#[test]
fn body_centres_the_diagram_with_a_caret_after_the_selected_label() {
    let boxes = vec![node_with_children("root", vec![node("A"), node("B")])];
    let state = new_state(boxes, Mode::Command, Some(Path { ancestors: vec![], index: 0 }));
    let placed = body(&state, AREA);
    assert_eq!(placed, centre(with_cursor(diagram(&state.doc.boxes), Some(vec![0])), AREA));
    assert!(placed.iter().any(|p| matches!(p.node, PlacementNode::Cursor(_))));
}

#[test]
fn body_without_a_selection_has_no_caret() {
    let boxes = vec![node("A")];
    let state = new_state(boxes, Mode::Command, None);
    let placed = body(&state, AREA);
    assert_eq!(placed, centre(diagram(&state.doc.boxes), AREA));
    assert!(!placed.iter().any(|p| matches!(p.node, PlacementNode::Cursor(_))));
}
