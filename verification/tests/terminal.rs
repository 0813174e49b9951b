use dre::canvas::{Canvas, Rgba};
use dre::layout::{Arrow, Cursor, Placement, PlacementNode};
use dre::palette::palette;
use dre::render::shapes::{centered_span, BoxShape};
use dre::kitty;
use dre::render::terminal::{
    composite, fill_colour, sprite_key, Crop, Frame, Placed, TerminalRenderer, Window, ARROW_STROKE,
    BLANK, CACHE_LIMIT, HOME_CURSOR, TRANSPARENT,
};
use dre::render::{colour, BORDER, FILL_ALPHA, OPAQUE};

#[test]
fn terminal_fill_colour_of_plain_is_transparent() {
    assert_eq!(fill_colour(None, false), TRANSPARENT);
    assert_eq!(fill_colour(None, true), TRANSPARENT);
}

#[test]
fn terminal_fill_colour_of_a_palette_index_is_alpha_composited_and_opaque() {
    let (r, g, b) = palette(2).unwrap();
    let round = |channel: u8| (channel as f64 * FILL_ALPHA as f64 / OPAQUE as f64).round() as u8;
    let expected = (round(r), round(g), round(b), OPAQUE);
    assert_eq!(fill_colour(Some(2), true), expected);
}

#[test]
fn coloured_but_not_filled_is_transparent() {
    assert_eq!(fill_colour(Some(2), false), TRANSPARENT);
}

fn edge_rgba(index: Option<u8>) -> (u8, u8, u8, u8) {
    let (r, g, b) = colour(index);
    (r, g, b, OPAQUE)
}

fn box_pixels(width: i64, height: i64, radius: i64, edge: (u8, u8, u8, u8), fill: (u8, u8, u8, u8)) -> Vec<u8> {
    let shape = BoxShape {
        width,
        height,
        border: BORDER,
        radius,
        edge: [edge.0, edge.1, edge.2, edge.3],
        fill: [fill.0, fill.1, fill.2, fill.3],
    };
    Canvas::fill(width, height, &shape).pixels
}

fn pixel_at(pixels: &[u8], width: i64, x: i64, y: i64) -> (u8, u8, u8, u8) {
    let offset = ((y * width + x) * 4) as usize;
    (pixels[offset], pixels[offset + 1], pixels[offset + 2], pixels[offset + 3])
}

#[test]
fn terminal_plain_fill_renders_transparent_interior() {
    let size = 2 * BORDER + 3;
    let pixels = box_pixels(size, size, 0, edge_rgba(None), fill_colour(None, false));
    assert_eq!(pixel_at(&pixels, size, BORDER + 1, BORDER + 1), TRANSPARENT);
}

#[test]
fn terminal_a_fill_colour_is_composited_over_black_and_made_opaque() {
    let size = 2 * BORDER + 3;
    let pixels = box_pixels(size, size, 0, edge_rgba(None), fill_colour(Some(2), true));
    assert_eq!(pixel_at(&pixels, size, BORDER + 1, BORDER + 1), fill_colour(Some(2), true));
}

#[test]
fn terminal_border_pixels_are_unaffected_by_fill() {
    let size = 2 * BORDER + 3;
    let pixels = box_pixels(size, size, 0, edge_rgba(Some(3)), fill_colour(Some(2), true));
    assert_eq!(pixel_at(&pixels, size, 0, 0), edge_rgba(Some(3)));
    assert_eq!(pixel_at(&pixels, size, BORDER + 1, BORDER + 1), fill_colour(Some(2), true));
}

#[test]
fn terminal_a_border_is_bold_at_every_edge() {
    let size = 3 * 4;
    let edge = edge_rgba(Some(1));
    let fill = fill_colour(Some(2), true);
    let pixels = box_pixels(size, size, 0, edge, fill);
    for offset in 0..BORDER {
        assert_eq!(pixel_at(&pixels, size, 5, offset), edge);
        assert_eq!(pixel_at(&pixels, size, 5, size - 1 - offset), edge);
    }
    assert_eq!(pixel_at(&pixels, size, 5, BORDER), fill);
    assert_eq!(pixel_at(&pixels, size, 5, size - 1 - BORDER), fill);
    for offset in 0..BORDER {
        assert_eq!(pixel_at(&pixels, size, offset, 5), edge);
        assert_eq!(pixel_at(&pixels, size, size - 1 - offset, 5), edge);
    }
    assert_eq!(pixel_at(&pixels, size, BORDER, 5), fill);
    assert_eq!(pixel_at(&pixels, size, size - 1 - BORDER, 5), fill);
}

const CORNER_SIZE: i64 = 80;

#[test]
fn terminal_a_square_box_is_built_from_flat_edge_and_body_rows() {
    let edge = edge_rgba(Some(1));
    let fill = fill_colour(Some(2), true);
    let pixels = box_pixels(CORNER_SIZE, CORNER_SIZE, 0, edge, fill);

    let edge_px = [edge.0, edge.1, edge.2, edge.3];
    let fill_px = [fill.0, fill.1, fill.2, fill.3];
    let edge_row = edge_px.repeat(CORNER_SIZE as usize);
    let mut expected_body_row = Vec::new();
    expected_body_row.extend(edge_px.repeat(BORDER as usize));
    expected_body_row.extend(fill_px.repeat((CORNER_SIZE - 2 * BORDER) as usize));
    expected_body_row.extend(edge_px.repeat(BORDER as usize));

    let mut expected = Vec::new();
    expected.extend(edge_row.repeat(BORDER as usize));
    expected.extend(expected_body_row.repeat((CORNER_SIZE - 2 * BORDER) as usize));
    expected.extend(edge_row.repeat(BORDER as usize));
    assert_eq!(pixels, expected);
}

const SMALL_SIZE: i64 = 20;

#[test]
fn terminal_the_sprite_holds_exactly_one_pixel_per_cell_of_its_area() {
    let pixels = box_pixels(SMALL_SIZE, SMALL_SIZE, 0, edge_rgba(Some(1)), fill_colour(Some(2), true));
    assert_eq!(pixels.len() as i64, SMALL_SIZE * SMALL_SIZE * 4);
}

fn box_placement(colour: Option<u8>, fill: Option<u8>, rounded: bool, x: i64, y: i64, width: i64, height: i64) -> Placement<'static> {
    Placement { node: PlacementNode::Box { colour, fill, rounded }, x, y, width, height }
}

fn arrow_placement(stops: Vec<i64>, shaft: i64, x: i64, y: i64, width: i64, height: i64) -> Placement<'static> {
    Placement { node: PlacementNode::Arrow(Arrow { stops, shaft }), x, y, width, height }
}

fn cursor_placement(x: i64, y: i64, width: i64, height: i64) -> Placement<'static> {
    Placement { node: PlacementNode::Cursor(Cursor), x, y, width, height }
}

#[test]
fn terminal_sprite_key_of_two_identically_shaped_boxes_is_equal() {
    let a = box_placement(Some(1), Some(1), true, 0, 0, 10, 10);
    let b = box_placement(Some(1), Some(1), true, 0, 0, 10, 10);
    assert_eq!(sprite_key(&a), sprite_key(&b));
}

#[test]
fn terminal_sprite_key_differs_by_colour() {
    let a = box_placement(Some(1), Some(1), true, 0, 0, 10, 10);
    let b = box_placement(Some(2), Some(2), true, 0, 0, 10, 10);
    assert_ne!(sprite_key(&a), sprite_key(&b));
}

#[test]
fn terminal_sprite_key_differs_by_fill() {
    let a = box_placement(Some(1), Some(1), true, 0, 0, 10, 10);
    let b = box_placement(Some(1), None, true, 0, 0, 10, 10);
    assert_ne!(sprite_key(&a), sprite_key(&b));
}

#[test]
fn terminal_sprite_key_differs_by_rounded() {
    let a = box_placement(Some(1), Some(1), true, 0, 0, 10, 10);
    let b = box_placement(Some(1), Some(1), false, 0, 0, 10, 10);
    assert_ne!(sprite_key(&a), sprite_key(&b));
}

#[test]
fn terminal_sprite_key_of_arrows_with_different_stops_differs() {
    let a = arrow_placement(vec![0, 2], 1, 0, 0, 4, 3);
    let b = arrow_placement(vec![0, 3], 1, 0, 0, 4, 3);
    assert_ne!(sprite_key(&a), sprite_key(&b));
}

#[test]
fn terminal_sprite_key_of_identical_arrows_is_equal() {
    let a = arrow_placement(vec![0, 2], 1, 0, 0, 4, 3);
    let b = arrow_placement(vec![0, 2], 1, 0, 0, 4, 3);
    assert_eq!(sprite_key(&a), sprite_key(&b));
}

fn window(cols: i64, rows: i64, cell_width: i64, cell_height: i64) -> Window {
    Window { cols, rows, cell_width, cell_height }
}

fn renderer(cell_width: i64, cell_height: i64) -> TerminalRenderer {
    renderer_on(window(0, 0, cell_width, cell_height))
}

fn renderer_on(window: Window) -> TerminalRenderer {
    TerminalRenderer::new(window, CACHE_LIMIT)
}

fn drawn_frame(r: &mut TerminalRenderer, placements: &[Placement]) -> Frame {
    let mut frame = Frame::new(r.window);
    for placement in placements {
        match &placement.node {
            PlacementNode::Arrow(_) => r.draw_arrow(&mut frame, placement),
            PlacementNode::Cursor(_) => r.draw_cursor(&mut frame, placement),
            _ => {}
        }
    }
    frame
}

fn grid(r: &mut TerminalRenderer, placements: &[Placement]) -> Vec<String> {
    drawn_frame(r, placements).characters.iter().map(|row| row.iter().collect()).collect()
}

fn sprites(r: &mut TerminalRenderer, placements: &[Placement]) -> Vec<Placed> {
    drawn_frame(r, placements).images
}

#[test]
fn centre_on_puts_the_diagram_in_the_middle_of_the_terminal() {
    let (cols, rows) = (20, 10);
    let (width, height) = (6, 4);
    let mut frame = Frame::new(window(cols, rows, 1, 1));
    frame.centre_on(&vec![box_placement(None, None, false, 0, 0, width, height)]);
    assert_eq!(frame.origin, ((cols - width).div_euclid(2), (rows - height).div_euclid(2)));
}

#[test]
fn centre_on_measures_the_whole_bounding_box() {
    let (cols, rows) = (20, 10);
    let placements = vec![box_placement(None, None, false, 0, 0, 3, 2), box_placement(None, None, false, 5, 4, 3, 2)];
    let mut frame = Frame::new(window(cols, rows, 1, 1));
    frame.centre_on(&placements);
    assert_eq!(frame.origin, ((cols - 8).div_euclid(2), (rows - 6).div_euclid(2)));
}

#[test]
fn centre_on_nothing_leaves_the_origin_at_the_corner() {
    let mut frame = Frame::new(window(20, 10, 1, 1));
    frame.centre_on(&vec![]);
    assert_eq!(frame.origin, (0, 0));
}

#[test]
fn centre_on_centres_an_overflowing_diagram_with_a_negative_origin() {
    let (cols, rows) = (10, 10);
    let (span, height) = (30, 4);
    let mut frame = Frame::new(window(cols, rows, 1, 1));
    frame.centre_on(&vec![box_placement(None, None, false, 0, 0, span, height)]);
    assert_eq!(frame.origin, ((cols - span).div_euclid(2), (rows - height).div_euclid(2)));
    assert!(frame.origin.0 < 0);
}

#[test]
fn centre_on_cuts_the_extra_column_of_an_odd_overflow_on_the_left() {
    let (cols, rows) = (10, 10);
    let span = cols + 3;
    let mut frame = Frame::new(window(cols, rows, 1, 1));
    frame.centre_on(&vec![box_placement(None, None, false, 0, 0, span, 4)]);
    let cut_on_left = -frame.origin.0;
    let cut_on_right = span - cols - cut_on_left;
    assert_eq!(cut_on_left, cut_on_right + 1);
}

#[test]
fn terminal_cursor_placement_is_drawn_at_its_own_position() {
    let mut r = renderer_on(window(4, 3, 1, 1));
    let images = sprites(&mut r, &[cursor_placement(2, 1, 1, 1)]);
    assert_eq!(images.len(), 1);
    assert_eq!((images[0].col, images[0].row), (2, 1));
    let (cr, cg, cb) = colour(None);
    assert_eq!(&images[0].canvas.pixels[0..4], &[cr, cg, cb, OPAQUE]);
}

#[test]
fn terminal_a_cursor_outside_the_grid_is_clipped() {
    let mut r = renderer_on(window(4, 3, 1, 1));
    let images = sprites(&mut r, &[cursor_placement(9, 9, 1, 1)]);
    assert!(images.is_empty());
}

#[test]
fn terminal_an_arrow_leaves_the_gap_blank() {
    let grid = grid(&mut renderer_on(window(4, 4, 1, 1)), &[arrow_placement(vec![0], 0, 2, 1, 1, 2)]);
    assert_eq!(grid, vec!["    ".to_string(); 4]);
}

#[test]
fn a_cursor_has_a_sprite() {
    let mut r = renderer_on(window(40, 20, 2, 4));
    assert_eq!(sprites(&mut r, &[cursor_placement(1, 1, 1, 1)]).len(), 1);
}

#[test]
fn a_box_straddling_an_edge_is_shown() {
    let frame = Frame::new(window(20, 10, 4, 8));
    assert!(frame.shows(&box_placement(None, None, false, 18, 0, 4, 3)));
    assert!(frame.shows(&box_placement(None, None, false, -2, 8, 4, 3)));
}

#[test]
fn terminal_arrows_with_different_stops_are_redrawn() {
    let mut r = renderer_on(window(40, 20, 2, 4));
    let one = sprites(&mut r, &[arrow_placement(vec![0], 0, 0, 0, 4, 6)]);
    let two = sprites(&mut r, &[arrow_placement(vec![0, 2], 0, 0, 0, 4, 6)]);
    assert_ne!(one[0].canvas.pixels, two[0].canvas.pixels);
}

fn arrow_alpha() -> u8 {
    (0.5 * OPAQUE as f64).round() as u8
}

fn arrow_outline(r: &TerminalRenderer, stops: Vec<i64>, shaft: i64, width: i64, height: i64) -> Canvas {
    r.outline_arrow(&arrow_placement(stops, shaft, 0, 0, width, height))
}

fn pixel_of(canvas: &Canvas, x: i64, y: i64) -> (u8, u8, u8, u8) {
    pixel_at(&canvas.pixels, canvas.width, x, y)
}

#[test]
fn terminal_the_shaft_is_arrow_stroke_pixels_thick() {
    let r = renderer(10, 10);
    let ink = colour(None);
    let ink = (ink.0, ink.1, ink.2, arrow_alpha());
    let sprite = arrow_outline(&r, vec![0, 2], 1, 4, 3);
    let shaft_row = 10 + 5;
    let rows: Vec<i64> = centered_span(shaft_row, ARROW_STROKE).collect();
    for &y in &rows {
        assert_eq!(pixel_of(&sprite, 5, y), ink);
    }
    assert_eq!(pixel_of(&sprite, 5, rows[0] - 1), TRANSPARENT);
    assert_eq!(pixel_of(&sprite, 5, rows[rows.len() - 1] + 1), TRANSPARENT);
}

#[test]
fn terminal_the_trunk_is_arrow_stroke_pixels_thick() {
    let r = renderer(10, 10);
    let ink = colour(None);
    let ink = (ink.0, ink.1, ink.2, arrow_alpha());
    let sprite = arrow_outline(&r, vec![0, 2], 1, 4, 3);
    let midpoint = (4 * 10) / 2;
    let columns: Vec<i64> = centered_span(midpoint, ARROW_STROKE).collect();
    for &x in &columns {
        assert_eq!(pixel_of(&sprite, x, 10), ink);
    }
    assert_eq!(pixel_of(&sprite, columns[0] - 1, 10), TRANSPARENT);
    assert_eq!(pixel_of(&sprite, columns[columns.len() - 1] + 1, 10), TRANSPARENT);
}

#[test]
fn terminal_the_arrowhead_tip_sits_at_the_stop_row() {
    let r = renderer(10, 10);
    let ink = colour(None);
    let ink = (ink.0, ink.1, ink.2, arrow_alpha());
    let sprite = arrow_outline(&r, vec![0, 2], 1, 4, 3);
    let right_edge = 4 * 10 - 1;
    for stop_row in [5, 25] {
        assert_eq!(pixel_of(&sprite, right_edge, stop_row), ink);
        assert_eq!(pixel_of(&sprite, right_edge - 1, stop_row), ink);
    }
}

#[test]
fn terminal_a_single_stop_arrow_is_a_straight_line_across_every_column() {
    let r = renderer(4, 5);
    let sprite = arrow_outline(&r, vec![0], 0, 2, 1);
    let shaft_row = sprite.height / 2;
    for x in 0..sprite.width {
        assert_eq!(pixel_of(&sprite, x, shaft_row).3, arrow_alpha());
    }
}

#[test]
fn terminal_arrow_off_shape_pixels_are_transparent() {
    let r = renderer(4, 5);
    let sprite = arrow_outline(&r, vec![0], 0, 2, 1);
    assert_eq!(pixel_of(&sprite, 0, 0), TRANSPARENT);
}

#[test]
fn an_arrow_is_the_default_foreground_colour() {
    let r = renderer(4, 5);
    let sprite = arrow_outline(&r, vec![0], 0, 2, 1);
    let (pr, pg, pb) = colour(None);
    let shaft_row = sprite.height / 2;
    assert_eq!(pixel_of(&sprite, 0, shaft_row), (pr, pg, pb, arrow_alpha()));
}

#[test]
fn terminal_a_branching_arrow_has_a_stub_at_every_stop() {
    let r = renderer(4, 5);
    let sprite = arrow_outline(&r, vec![0, 3], 0, 2, 4);
    let midpoint = sprite.width / 2;
    for stop in [0, 3] {
        let row = stop * 5 + 5 / 2;
        for x in midpoint..sprite.width {
            assert_eq!(pixel_of(&sprite, x, row).3, arrow_alpha());
        }
    }
}

#[test]
fn terminal_a_branching_arrow_rows_between_stops_are_blank_past_the_trunk() {
    let r = renderer(4, 5);
    let sprite = arrow_outline(&r, vec![0, 3], 0, 2, 4);
    let midpoint = sprite.width / 2;
    let trunk_columns: std::collections::HashSet<i64> = centered_span(midpoint, ARROW_STROKE).collect();
    let row_between_stops = 5 + 5 / 2;
    for x in 0..sprite.width {
        let expected = if trunk_columns.contains(&x) { arrow_alpha() } else { 0 };
        assert_eq!(pixel_of(&sprite, x, row_between_stops).3, expected);
    }
}

#[test]
fn an_arrow_pixel_has_the_arrow_opacity_and_the_foreground_colour() {
    let r = renderer(4, 5);
    let sprite = arrow_outline(&r, vec![0], 0, 2, 1);
    let (fr, fg, fb) = colour(None);
    let shaft_row = sprite.height / 2;
    assert_eq!(pixel_of(&sprite, 0, shaft_row), (fr, fg, fb, arrow_alpha()));
}

#[test]
fn the_shaft_meeting_the_trunk_has_the_same_colour_as_the_shaft_alone() {
    let r = renderer(10, 10);
    let sprite = arrow_outline(&r, vec![0, 2], 1, 4, 3);
    let shaft_row = 10 + 5;
    let midpoint = (4 * 10) / 2;
    assert_eq!(pixel_of(&sprite, midpoint, shaft_row), pixel_of(&sprite, midpoint - ARROW_STROKE - 1, shaft_row));
}

#[test]
fn the_arrow_stroke_is_thinner_than_a_border_and_thicker_than_a_pixel() {
    assert!(ARROW_STROKE < BORDER);
    assert!(ARROW_STROKE > 1);
}

#[test]
fn composite_blends_the_overlay_over_the_backdrop_by_its_alpha() {
    assert_eq!(composite((200, 100, 0, 255), (10, 20, 30)), (200, 100, 0));
    assert_eq!(composite((200, 100, 0, 0), (10, 20, 30)), (10, 20, 30));
    assert_eq!(composite((0, 0, 0, 128), (100, 50, 10)), (50, 25, 5));
}

#[test]
fn a_solid_colour_canvas_has_its_colour_everywhere() {
    let ink: Rgba = [1, 2, 3, 4];
    let canvas = Canvas::fill(3, 2, &dre::render::terminal::SolidShape { colour: ink });
    assert_eq!(canvas.pixels, ink.repeat(6));
}

fn plain_box_at(x: i64, y: i64, width: i64, height: i64) -> Placement<'static> {
    box_placement(None, None, false, x, y, width, height)
}

fn lines_of(frame: &str) -> Vec<&str> {
    frame.strip_prefix(HOME_CURSOR).unwrap().split("\r\n").collect()
}

#[test]
fn centre_on_centres_a_diagram_that_fits() {
    let (cols, rows) = (20, 10);
    let (width, height) = (6, 4);
    let mut frame = Frame::new(window(cols, rows, 1, 1));
    frame.centre_on(&vec![plain_box_at(0, 0, width, height)]);
    assert_eq!(frame.origin, ((cols - width).div_euclid(2), (rows - height).div_euclid(2)));
}

#[test]
fn a_box_on_screen_is_cropped_to_the_whole_shape() {
    let window = window(20, 10, 4, 8);
    let (width, height) = (5, 4);
    let frame = Frame::new(window);
    assert_eq!(
        frame.crop(&plain_box_at(2, 3, width, height)),
        Some(Crop {
            col: 2,
            row: 3,
            first_x: 0,
            last_x: width * window.cell_width,
            first_y: 0,
            last_y: height * window.cell_height,
        })
    );
}

#[test]
fn a_crop_sits_at_the_placement_shifted_by_the_origin() {
    let mut frame = Frame::new(window(20, 10, 4, 8));
    frame.centre_on(&vec![plain_box_at(0, 0, 6, 4)]);
    let crop = frame.crop(&plain_box_at(1, 1, 3, 2)).unwrap();
    assert_eq!((crop.col, crop.row), (1 + frame.origin.0, 1 + frame.origin.1));
}

#[test]
fn a_crop_overhanging_the_left_drops_the_hidden_columns() {
    let window = window(20, 10, 4, 8);
    let (hidden, width) = (2, 5);
    let frame = Frame::new(window);
    let crop = frame.crop(&plain_box_at(-hidden, 0, width, 3)).unwrap();
    assert_eq!(crop.col, 0);
    assert_eq!(crop.first_x, hidden * window.cell_width);
    assert_eq!(crop.last_x, width * window.cell_width);
}

#[test]
fn a_crop_overhanging_the_top_drops_the_hidden_rows() {
    let window = window(20, 10, 4, 8);
    let (hidden, height) = (2, 5);
    let frame = Frame::new(window);
    let crop = frame.crop(&plain_box_at(0, -hidden, 3, height)).unwrap();
    assert_eq!(crop.row, 0);
    assert_eq!(crop.first_y, hidden * window.cell_height);
    assert_eq!(crop.last_y, height * window.cell_height);
}

#[test]
fn a_crop_overhanging_the_right_stops_at_the_last_column() {
    let window = window(20, 10, 4, 8);
    let x = 18;
    let frame = Frame::new(window);
    let crop = frame.crop(&plain_box_at(x, 0, 5, 3)).unwrap();
    assert_eq!(crop.col, x);
    assert_eq!(crop.first_x, 0);
    assert_eq!(crop.last_x, (window.cols - x) * window.cell_width);
}

#[test]
fn a_crop_overhanging_the_bottom_stops_at_the_last_row() {
    let window = window(20, 10, 4, 8);
    let y = 8;
    let frame = Frame::new(window);
    let crop = frame.crop(&plain_box_at(0, y, 3, 5)).unwrap();
    assert_eq!(crop.row, y);
    assert_eq!(crop.first_y, 0);
    assert_eq!(crop.last_y, (window.rows - y) * window.cell_height);
}

#[test]
fn a_box_beyond_the_right_edge_has_no_crop() {
    let frame = Frame::new(window(20, 10, 4, 8));
    assert_eq!(frame.crop(&plain_box_at(20, 0, 4, 3)), None);
}

#[test]
fn a_box_beyond_the_top_edge_has_no_crop() {
    let frame = Frame::new(window(20, 10, 4, 8));
    assert_eq!(frame.crop(&plain_box_at(0, -3, 4, 3)), None);
}

#[test]
fn terminal_the_graphics_payload_is_appended_to_the_last_line_only() {
    let frame = Frame::new(window(3, 2, 2, 4));
    let output = String::from_utf8(frame.into_bytes()).unwrap();
    let lines = lines_of(&output);
    assert_eq!(lines[0], BLANK.to_string().repeat(3));
    assert_eq!(lines[1], format!("{}{}", BLANK.to_string().repeat(3), kitty::clear().to_string()));
}

#[test]
fn the_cursor_goes_home_before_the_lines() {
    let frame = Frame::new(window(2, 2, 1, 1));
    assert_eq!(
        String::from_utf8(frame.into_bytes()).unwrap(),
        format!("{HOME_CURSOR}  \r\n  {}", kitty::clear().to_string())
    );
}

#[test]
fn the_output_is_sized_by_the_terminal() {
    let (cols, rows) = (5, 4);
    let frame = Frame::new(window(cols, rows, 1, 1));
    let output = String::from_utf8(frame.into_bytes()).unwrap();
    let body = output
        .strip_prefix(HOME_CURSOR)
        .unwrap()
        .strip_suffix(&kitty::clear().to_string())
        .unwrap();
    assert_eq!(
        body.split("\r\n").collect::<Vec<_>>(),
        vec![BLANK.to_string().repeat(cols as usize); rows as usize]
    );
}

#[test]
fn terminal_empty_canvas_fills_terminal() {
    let grid = grid(&mut renderer_on(window(11, 5, 1, 1)), &[]);
    assert_eq!(grid, vec![BLANK.to_string().repeat(11); 5]);
}

#[test]
fn the_cursor_is_drawn_for_the_selected_box() {
    let boxes = vec![dre::diagram::node("hi")];
    let mut r = renderer_on(window(20, 10, 1, 1));
    let placements = dre::layout::with_cursor(dre::layout::diagram(&boxes), Some(vec![0]));
    assert!(placements.iter().any(|placement| matches!(placement.node, PlacementNode::Cursor(_))));
    let images = sprites(&mut r, &placements);
    let cursor_image = images.last().expect("a sprite is drawn for the cursor");
    let (cr, cg, cb) = colour(None);
    let solid = [cr, cg, cb, OPAQUE];
    assert!(cursor_image.canvas.pixels.chunks(4).all(|pixel| pixel == solid));
}

#[test]
fn no_cursor_is_drawn_without_a_selection() {
    let mut r = renderer_on(window(20, 10, 1, 1));
    let boxes = vec![dre::diagram::node("hi")];
    let placements = dre::layout::with_cursor(dre::layout::diagram(&boxes), None);
    assert!(!placements.iter().any(|placement| matches!(placement.node, PlacementNode::Cursor(_))));
    sprites(&mut r, &placements);
}
