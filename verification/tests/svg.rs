use dre::diagram::{node, node_with_children, Node};
use dre::layout::{diagram, width, with_cursor, Cursor, Label, Placement, PlacementNode, BOX_HEIGHT};
use dre::palette::{palette, BACKGROUND};
use dre::render::svg::{view_box as svg_view_box, SvgRenderer, ARROW_STROKE};
use dre::render::{colour, BORDER, CELL_HEIGHT, CELL_WIDTH, FILL_ALPHA, OPAQUE, ROUNDED_RADIUS};

fn boxed(label: &str, colour: Option<u8>, filled: bool, rounded: bool) -> Node {
    Node { colour, filled, rounded, ..node(label) }
}

fn rgb(colour: (u8, u8, u8)) -> String {
    format!("rgb({},{},{})", colour.0, colour.1, colour.2)
}

fn background_fill() -> String {
    rgb(palette(BACKGROUND).unwrap())
}

fn view_box(min_x: i64, min_y: i64, span_x: i64, span_y: i64) -> String {
    format!("{min_x} {min_y} {span_x} {span_y}")
}

fn fill_opacity() -> String {
    format!("{}", FILL_ALPHA as f64 / OPAQUE as f64)
}

fn label_font_size() -> f64 {
    (CELL_WIDTH as f64 / 0.6 * 100.0).round() / 100.0
}

fn draw(renderer: &SvgRenderer, placements: &[Placement]) -> String {
    renderer.draw(&placements.to_vec())
}

fn box_placement(colour: Option<u8>, fill: Option<u8>, rounded: bool, x: i64, y: i64, width: i64, height: i64) -> Placement<'static> {
    Placement { node: PlacementNode::Box { colour, fill, rounded }, x, y, width, height }
}

fn label_placement<'a>(text: &'a str, x: i64, y: i64) -> Placement<'a> {
    Placement {
        node: PlacementNode::Label(Label { text, path: vec![0] }),
        x,
        y,
        width: text.chars().count() as i64,
        height: 1,
    }
}

fn expected_background(min_x: i64, min_y: i64, span_x: i64, span_y: i64) -> String {
    format!(
        "<rect x=\"{min_x}\" y=\"{min_y}\" width=\"{span_x}\" height=\"{span_y}\" fill=\"{}\"/>",
        background_fill()
    )
}

fn rects_of(svg: &str) -> Vec<&str> {
    svg.split("</svg>")
        .next()
        .expect("the document closes the svg tag")
        .split('<')
        .filter(|element| element.starts_with("rect "))
        .collect()
}

#[test]
fn a_plain_leaf_box_renders_with_margins_a_transparent_fill_and_no_rounding() {
    let nodes = vec![node("hi")];
    let placements = diagram(&nodes);

    let svg = SvgRenderer::default().draw(&placements);

    let box_width = width(&nodes[0]);
    let expected = view_box(
        -CELL_HEIGHT,
        -CELL_HEIGHT,
        box_width * CELL_WIDTH + 2 * CELL_HEIGHT,
        BOX_HEIGHT * CELL_HEIGHT + 2 * CELL_HEIGHT,
    );
    assert!(svg.contains(&format!("viewBox=\"{expected}\"")));
    assert!(svg.contains(&format!(
        "<rect x=\"0\" y=\"0\" width=\"{}\" height=\"{}\" stroke=\"{}\" stroke-width=\"{}\" fill=\"none\"/>",
        box_width * CELL_WIDTH,
        BOX_HEIGHT * CELL_HEIGHT,
        rgb(colour(None)),
        BORDER / 2,
    )));
    assert!(!svg.contains("rx"));
}

#[test]
fn a_coloured_filled_rounded_box_renders_stroke_fill_and_rx() {
    let nodes = vec![boxed("hi", Some(1), true, true)];
    let placements = diagram(&nodes);

    let svg = SvgRenderer::default().draw(&placements);

    let mut rects = rects_of(&svg);
    let background_rect = rects.remove(0);
    assert!(background_rect.contains(&format!("fill=\"{}\"", background_fill())));
    assert!(!background_rect.contains("stroke="));
    assert!(svg.contains(&format!("stroke=\"{}\"", rgb(colour(Some(1))))));
    assert!(svg.contains(&format!("stroke-width=\"{}\"", BORDER / 2)));
    assert!(svg.contains(&format!("rx=\"{ROUNDED_RADIUS}\"")));
    assert!(svg.contains(&format!("fill=\"{}\"", rgb(palette(1).unwrap()))));
    assert!(svg.contains(&format!("fill-opacity=\"{}\"", fill_opacity())));
}

#[test]
fn empty_placements_render_a_document_with_the_empty_bbox_view_box() {
    let svg = draw(&SvgRenderer::default(), &[]);

    let expected = view_box(-CELL_HEIGHT, -CELL_HEIGHT, 2 * CELL_HEIGHT, 2 * CELL_HEIGHT);
    assert!(svg.contains(&format!("viewBox=\"{expected}\"")));
    let rects = rects_of(&svg);
    assert_eq!(rects.len(), 1, "only the background rect is drawn on an empty document");
    assert!(rects[0].contains(&format!("fill=\"{}\"", background_fill())), "the rect is the background rect");
    assert!(!svg.contains("stroke="), "no boxes means no strokes");
}

#[test]
fn every_document_paints_a_single_background_rect_filling_the_view_box() {
    let svg = draw(&SvgRenderer::default(), &[]);

    let (min_x, min_y, span_x, span_y) = svg_view_box(&vec![]);
    let background = expected_background(min_x, min_y, span_x, span_y);
    let opening_end = svg.find('>').expect("the document opens with the svg tag") + 1;
    assert_eq!(
        svg.find(&background).expect("the background rect is emitted"),
        opening_end,
        "the background rect immediately follows the opening svg tag"
    );

    let rects = rects_of(&svg);
    assert_eq!(rects.len(), 1, "the background rect is the only rect");
    assert!(rects[0].contains(&format!("fill=\"{}\"", background_fill())));
    assert!(!rects[0].contains("stroke"));
}

#[test]
fn the_background_rect_is_painted_before_defs_boxes_and_labels() {
    let nodes = vec![boxed("warn", Some(1), false, false), node_with_children("parent", vec![node("a"), node("b")])];
    let placements = diagram(&nodes);

    let svg = SvgRenderer::default().draw(&placements);

    let (min_x, min_y, span_x, span_y) = svg_view_box(&placements);
    let background = expected_background(min_x, min_y, span_x, span_y);
    let background_pos = svg.find(&background).expect("the background rect is emitted");
    let opening_end = svg.find('>').expect("the document opens with the svg tag") + 1;
    assert_eq!(background_pos, opening_end);
    assert!(background_pos < svg.find("<defs>").expect("arrows emit defs"));
    assert!(background_pos < svg.find("<text").expect("labels draw text"));
}

#[test]
fn every_box_declares_a_fill_and_only_a_filled_coloured_box_gets_a_colour_fill() {
    let nodes = vec![
        boxed("plain", None, false, false),
        boxed("plain_filled", None, true, false),
        boxed("colour", Some(2), false, false),
        boxed("colour_filled", Some(1), true, false),
    ];
    let placements = diagram(&nodes);

    let svg = SvgRenderer::default().draw(&placements);

    let rects: Vec<&str> = rects_of(&svg).into_iter().filter(|r| !r.contains(&background_fill())).collect();
    assert_eq!(rects.len(), 4);
    for rect in &rects {
        assert!(rect.contains("fill="));
    }
    let (pr, pg, pb) = palette(1).unwrap();
    let palette_fill = format!("fill=\"rgb({pr},{pg},{pb})\"");
    assert_eq!(rects.iter().filter(|r| r.contains(&palette_fill)).count(), 1);
    assert_eq!(rects.iter().filter(|r| r.contains("fill=\"none\"")).count(), 3);
}

#[test]
fn colourless_boxes_are_foreground_while_coloured_boxes_keep_palette_colours() {
    let nodes = vec![
        boxed("plain", None, false, false),
        boxed("colour", Some(2), false, false),
        node_with_children("root", vec![node("A")]),
    ];
    let placements = diagram(&nodes);

    let svg = SvgRenderer::default().draw(&placements);

    let foreground_stroke = format!("stroke=\"{}\"", rgb(colour(None)));
    let coloured_stroke = format!("stroke=\"{}\"", rgb(palette(2).unwrap()));
    let rects: Vec<&str> = rects_of(&svg).into_iter().filter(|r| !r.contains(&background_fill())).collect();
    assert!(rects.iter().all(|rect| rect.contains(&foreground_stroke) || rect.contains(&coloured_stroke)));
    assert_eq!(rects.iter().filter(|rect| rect.contains(&coloured_stroke)).count(), 1);
    assert_eq!(rects.iter().filter(|rect| rect.contains(&foreground_stroke)).count(), rects.len() - 1);
}

#[test]
fn a_label_over_a_coloured_box_is_vertically_centred_on_the_box_midline() {
    let label_x = 2;
    let label_y = 1;
    let placements = vec![box_placement(Some(1), None, false, 0, 0, 4, 3), label_placement("hi", label_x, label_y)];

    let svg = draw(&SvgRenderer::default(), &placements);

    assert!(svg.contains(&format!(
        "<text xml:space=\"preserve\" font-family=\"monospace\" font-size=\"{}\" text-anchor=\"start\" dominant-baseline=\"central\" x=\"{}\" y=\"{}\" textLength=\"{}\" lengthAdjust=\"spacingAndGlyphs\" fill=\"{}\"",
        label_font_size(),
        label_x * CELL_WIDTH,
        label_y * CELL_HEIGHT + CELL_HEIGHT / 2,
        2 * CELL_WIDTH,
        rgb(colour(None)),
    )));
    assert!(svg.contains(">hi</text>"));
}

#[test]
fn label_with_trailing_space_preserves_whitespace_and_covers_it() {
    let placements = vec![label_placement("Pl ", 3, 2)];

    let svg = draw(&SvgRenderer::default(), &placements);

    assert!(svg.contains("<text xml:space=\"preserve\" "));
    assert!(svg.contains(&format!("textLength=\"{}\"", 3 * CELL_WIDTH)));
    assert!(svg.contains(">Pl </text>"));
}

#[test]
fn boxes_are_drawn_before_labels() {
    let placements = vec![box_placement(None, None, false, 0, 0, 4, 3), label_placement("hi", 2, 1)];

    let svg = draw(&SvgRenderer::default(), &placements);

    let rect = svg.find("<rect x=\"0\"").expect("a box placement draws a rect");
    let text = svg.find("<text").expect("a label placement draws a text");
    assert!(rect < text);
}

#[test]
fn a_label_with_xml_special_characters_escapes_them_in_the_text_content() {
    let placements = vec![box_placement(None, None, false, 0, 0, 4, 3), label_placement("a<b>&c", 2, 1)];

    let svg = draw(&SvgRenderer::default(), &placements);

    assert!(svg.contains(">a&lt;b&gt;&amp;c</text>"));
    assert!(!svg.contains("a<b>&c"));
}

#[test]
fn each_arrow_sits_inside_its_own_group_with_the_arrow_opacity() {
    let nodes = vec![node_with_children("a", vec![node("b"), node("c")]), node_with_children("d", vec![node("e")])];
    let placements = diagram(&nodes);

    let svg = SvgRenderer::default().draw(&placements);

    assert_eq!(svg.matches("<g opacity=\"0.5\">").count(), 2);
    assert_eq!(svg.matches("</g>").count(), 2);
}

#[test]
fn arrow_paths_use_the_arrow_stroke_and_box_strokes_keep_the_border_stroke() {
    let nodes = vec![node_with_children("a", vec![node("b")])];
    let placements = diagram(&nodes);

    let svg = SvgRenderer::default().draw(&placements);

    for path in svg.split("<path ").skip(1) {
        assert!(path.contains(&format!("stroke-width=\"{}\"", ARROW_STROKE)));
    }
    for rect in rects_of(&svg).into_iter().filter(|r| r.contains("stroke=")) {
        assert!(rect.contains(&format!("stroke-width=\"{}\"", BORDER / 2)));
    }
}

#[test]
fn a_chart_without_arrows_has_no_defs_or_arrowhead() {
    let nodes = vec![node("a"), node("b")];
    let svg = SvgRenderer::default().draw(&diagram(&nodes));
    assert!(!svg.contains("<defs>"));
    assert!(!svg.contains("marker-end"));
    assert!(!svg.contains("arrowhead"));
}

fn cursor_rect_at_cell(column: i64, row: i64) -> String {
    format!(
        "<rect x=\"{}\" y=\"{}\" width=\"{CELL_WIDTH}\" height=\"{CELL_HEIGHT}\" fill=\"{}\"/>",
        column * CELL_WIDTH,
        row * CELL_HEIGHT,
        rgb(colour(None)),
    )
}

fn cursor_rect_at_label_end_of(nodes: &Vec<Node>, selected: &[usize]) -> String {
    let boxes = diagram(nodes);
    let label = boxes
        .iter()
        .find(|placement| matches!(&placement.node, PlacementNode::Label(label) if label.path == selected))
        .unwrap();
    cursor_rect_at_cell(label.x + label.width - 1, label.y)
}

fn rendered(nodes: &Vec<Node>, selected: Option<Vec<usize>>) -> String {
    SvgRenderer::default().draw(&with_cursor(diagram(nodes), selected))
}

fn two_children() -> Vec<Node> {
    vec![node_with_children("root", vec![node("A"), node("B")])]
}

#[test]
fn a_selected_box_shows_the_cursor_at_the_end_of_its_label() {
    let path = vec![0, 1];
    let nodes = two_children();
    assert!(rendered(&nodes, Some(path.clone())).contains(&cursor_rect_at_label_end_of(&nodes, &path)));
}

#[test]
fn no_selection_shows_no_cursor() {
    let nodes = two_children();
    let cursor_fill = format!("width=\"{CELL_WIDTH}\" height=\"{CELL_HEIGHT}\" fill=\"{}\"/>", rgb(colour(None)));
    assert!(!rendered(&nodes, None).contains(&cursor_fill));
}

#[test]
fn moving_the_selection_moves_the_cursor() {
    let first = vec![0, 0];
    let second = vec![0, 1];
    let nodes = two_children();
    let first_cursor = cursor_rect_at_label_end_of(&nodes, &first);
    let second_cursor = cursor_rect_at_label_end_of(&nodes, &second);

    let svg = rendered(&nodes, Some(second.clone()));

    assert!(svg.contains(&second_cursor));
    assert!(!svg.contains(&first_cursor));
}

#[test]
fn the_cursor_is_painted_after_the_labels() {
    let placements = vec![
        label_placement("hi", 1, 1),
        Placement { node: PlacementNode::Cursor(Cursor), x: 2, y: 1, width: 1, height: 1 },
    ];

    let svg = draw(&SvgRenderer::default(), &placements);

    let cursor = svg.find(&cursor_rect_at_cell(2, 1)).unwrap();
    assert!(cursor > svg.find("<text").unwrap());
}

#[test]
fn a_fixed_canvas_sets_the_view_box_regardless_of_content() {
    let expected = format!("viewBox=\"0 0 {} {}\"", 160 * CELL_WIDTH, 50 * CELL_HEIGHT);
    assert!(draw(&SvgRenderer::with_canvas(160, 50), &[]).contains(&expected));
    let background = format!("<rect x=\"0\" y=\"0\" width=\"{}\" height=\"{}\"", 160 * CELL_WIDTH, 50 * CELL_HEIGHT);
    assert!(draw(&SvgRenderer::with_canvas(160, 50), &[]).contains(&background));
}

#[test]
fn without_a_canvas_the_view_box_hugs_the_content() {
    let expected = format!("viewBox=\"{} {} {} {}\"", -CELL_HEIGHT, -CELL_HEIGHT, 2 * CELL_HEIGHT, 2 * CELL_HEIGHT);
    assert!(draw(&SvgRenderer::default(), &[]).contains(&expected));
}

fn first_rect_origin(svg: &str) -> (i64, i64) {
    let rect = svg.split("<rect x=\"").nth(2).unwrap();
    let x: i64 = rect.split('"').next().unwrap().parse().unwrap();
    let y: i64 = rect.split("y=\"").nth(1).unwrap().split('"').next().unwrap().parse().unwrap();
    (x, y)
}

fn box_origin_when_centered(canvas: (i64, i64), extent: (i64, i64)) -> (i64, i64) {
    let nodes = vec![node("hi")];
    let placements = diagram(&nodes);
    let renderer = SvgRenderer::with_canvas(canvas.0, canvas.1).centered_on(extent.0, extent.1);
    first_rect_origin(&renderer.draw(&placements))
}

#[test]
fn an_extent_smaller_than_the_canvas_is_centered_in_it() {
    let uncentered = box_origin_when_centered((100, 40), (100, 40));
    let (x, y) = box_origin_when_centered((100, 40), (30, 10));
    assert_eq!((x - uncentered.0, y - uncentered.1), (35 * CELL_WIDTH, 15 * CELL_HEIGHT));
}

#[test]
fn an_odd_leftover_space_rounds_the_offset_down() {
    let uncentered = box_origin_when_centered((100, 40), (100, 40));
    let (x, y) = box_origin_when_centered((100, 40), (30, 9));
    assert_eq!((x - uncentered.0, y - uncentered.1), (35 * CELL_WIDTH, 15 * CELL_HEIGHT));
}

#[test]
fn an_extent_equal_to_the_canvas_gets_no_offset() {
    let nodes = vec![node("hi")];
    let placements = diagram(&nodes);
    let centered = SvgRenderer::with_canvas(100, 40).centered_on(100, 40).draw(&placements);
    assert_eq!(centered, SvgRenderer::with_canvas(100, 40).draw(&placements));
}

#[test]
fn an_extent_larger_than_the_canvas_is_clamped_to_no_offset() {
    let nodes = vec![node("hi")];
    let placements = diagram(&nodes);
    let centered = SvgRenderer::with_canvas(100, 40).centered_on(120, 50).draw(&placements);
    assert_eq!(centered, SvgRenderer::with_canvas(100, 40).draw(&placements));
}

#[test]
fn centering_leaves_the_view_box_fixed() {
    let expected = format!("viewBox=\"0 0 {} {}\"", 100 * CELL_WIDTH, 40 * CELL_HEIGHT);
    assert!(draw(&SvgRenderer::with_canvas(100, 40).centered_on(30, 10), &[]).contains(&expected));
}

#[test]
fn label_font_size_makes_the_monospace_advance_equal_a_cell_width() {
    assert_eq!(label_font_size().to_string(), dre::render::svg::LABEL_FONT_SIZE);
}
