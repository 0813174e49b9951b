//! Drawing placements as an SVG document.
use vstd::prelude::*;
use crate::layout::{
    Placement, PlacementNode, PlacementModel, PlacementNodeModel, Label, Arrow, views, within,
    all_within, all_bounded, all_content_ok, bounded, content_ok, cursor_after, diagram,
    diagram_spec, first_label, first_label_index, layout_fits, lemma_diagram_content, with_cursor,
    with_cursor_spec,
};
use crate::render::{
    colour, moved, offset, BORDER, CELL_HEIGHT, CELL_WIDTH, ROUNDED_RADIUS, PLACE_LIMIT, AREA_REACH,
};
use crate::palette::{palette, palette_spec, BACKGROUND, FOREGROUND};
use crate::diagram::{colour_ok, colours_ok, indices, selection_indices, DocModel};
use crate::state::State;
use crate::text::{push_str, push_signed, push_char, signed_decimal};

verus! {

/// Thickness of an arrow's lines, in pixels.
pub const ARROW_STROKE: i64 = 1;

/// How far an arrow's lines reach past the trunk, so that they join it.
pub const ARROW_JOIN_OVERLAP: i64 = 0;

/// The label font size that makes a monospace advance one cell wide: eight
/// pixels over an advance of six tenths of the size, to two decimals.
pub const LABEL_FONT_SIZE: &'static str = "13.33";

/// How opaque the arrows are drawn.
pub const ARROW_OPACITY: &'static str = "0.5";

/// How opaque a box's fill is: the fill alpha over full opacity.
pub const FILL_OPACITY: &'static str = "0.30196078431372547";

/// The arrowhead marker: two strokes fifteen pixels long at thirty degrees
/// either side of the line, in a box that holds them.
pub const ARROWHEAD_MARKER: &'static str = "<defs><marker id=\"arrowhead\" orient=\"auto\" markerUnits=\"userSpaceOnUse\" markerWidth=\"13\" markerHeight=\"15\" refX=\"13\" refY=\"7.5\" viewBox=\"0 0 13 15\"><path d=\"M 13 7.5 L 0.009618943233419941 0 M 13 7.5 L 0.009618943233419941 15\" stroke=\"";

/// How far from zero the placements drawn may reach: once moved to the
/// middle of a canvas they reach twice as far, and the view box then spans
/// up to three times that in cells of sixteen pixels, which an `i64` holds.
pub const SVG_REACH: i64 = 0x100_0000_0000_0000;

/// Draws placements as SVG: on a canvas of a fixed size, or one that hugs
/// what is drawn; and, on a fixed canvas, centred on an extent when one is
/// given.
#[derive(Debug, Default)]
pub struct SvgRenderer {
    canvas: Option<(i64, i64)>,
    extent: Option<(i64, i64)>,
}

pub struct SvgModel {
    pub canvas: Option<(i64, i64)>,
    pub extent: Option<(i64, i64)>,
}

impl View for SvgRenderer {
    type V = SvgModel;

    closed spec fn view(&self) -> SvgModel {
        SvgModel { canvas: self.canvas, extent: self.extent }
    }
}

pub open spec fn pair_ok(p: Option<(i64, i64)>) -> bool {
    match p {
        Some((a, b)) => -AREA_REACH <= a <= AREA_REACH && -AREA_REACH <= b <= AREA_REACH,
        None => true,
    }
}

pub open spec fn renderer_ok(r: SvgModel) -> bool {
    pair_ok(r.canvas) && pair_ok(r.extent)
}

/// What the renderer can draw of a placement's content: boxes in palette
/// colours, labels of sensible length, and arrows with at least one stop.
pub open spec fn node_ok(n: PlacementNodeModel) -> bool {
    match n {
        PlacementNodeModel::Box { colour, fill, .. } => colour_ok(colour) && colour_ok(fill),
        PlacementNodeModel::Label { text, .. } => text.len() <= SVG_REACH,
        PlacementNodeModel::Arrow { stops, shaft } => {
            &&& stops.len() > 0
            &&& -SVG_REACH <= shaft <= SVG_REACH
            &&& forall|j: int| 0 <= j < stops.len() ==> -SVG_REACH <= #[trigger] stops[j] <= SVG_REACH
        },
        PlacementNodeModel::Cursor => true,
    }
}

/// What the renderer can draw: every placement well inside an `i64`, with
/// content that it can draw.
pub open spec fn drawable(p: PlacementModel) -> bool {
    within(p, SVG_REACH as int) && node_ok(p.node)
}

/// Placements that, once moved to the middle of the canvas, can be drawn.
pub open spec fn shifted_ok(ps: Seq<PlacementModel>) -> bool {
    forall|i: int| 0 <= i < ps.len() ==> within(#[trigger] ps[i], 2 * SVG_REACH as int) && node_ok(ps[i].node)
}

pub open spec fn all_drawable(ps: Seq<PlacementModel>) -> bool {
    forall|i: int| 0 <= i < ps.len() ==> drawable(#[trigger] ps[i])
}

pub open spec fn num(i: int) -> Seq<char> {
    signed_decimal(i)
}

pub open spec fn rgb_spec(c: (u8, u8, u8)) -> Seq<char> {
    "rgb("@ + num(c.0 as int) + ","@ + num(c.1 as int) + ","@ + num(c.2 as int) + ")"@
}

pub open spec fn foreground() -> (u8, u8, u8) {
    palette_spec(FOREGROUND).unwrap()
}

pub open spec fn offset_spec(r: SvgModel) -> (int, int) {
    match (r.canvas, r.extent) {
        (Some((columns, rows)), Some((width, height))) => {
            let dx = (columns - width) / 2;
            let dy = (rows - height) / 2;
            (if dx >= 0 {
                dx
            } else {
                0
            }, if dy >= 0 {
                dy
            } else {
                0
            })
        },
        _ => (0, 0),
    }
}

/// The smallest of zero and every placement's `x`.
pub open spec fn low_x(ps: Seq<PlacementModel>) -> int
    decreases ps.len(),
{
    if ps.len() == 0 {
        0
    } else {
        let a = low_x(ps.drop_last());
        if ps.last().x < a {
            ps.last().x
        } else {
            a
        }
    }
}

pub open spec fn low_y(ps: Seq<PlacementModel>) -> int
    decreases ps.len(),
{
    if ps.len() == 0 {
        0
    } else {
        let a = low_y(ps.drop_last());
        if ps.last().y < a {
            ps.last().y
        } else {
            a
        }
    }
}

/// The largest of zero and every placement's right edge.
pub open spec fn high_x(ps: Seq<PlacementModel>) -> int
    decreases ps.len(),
{
    if ps.len() == 0 {
        0
    } else {
        let a = high_x(ps.drop_last());
        let b = ps.last().x + ps.last().width;
        if b > a {
            b
        } else {
            a
        }
    }
}

pub open spec fn high_y(ps: Seq<PlacementModel>) -> int
    decreases ps.len(),
{
    if ps.len() == 0 {
        0
    } else {
        let a = high_y(ps.drop_last());
        let b = ps.last().y + ps.last().height;
        if b > a {
            b
        } else {
            a
        }
    }
}

/// The pixels that the placements and the origin cover, with a margin of
/// one cell height all round.
pub open spec fn view_box_spec(ps: Seq<PlacementModel>) -> (int, int, int, int) {
    (
        low_x(ps) * CELL_WIDTH - CELL_HEIGHT,
        low_y(ps) * CELL_HEIGHT - CELL_HEIGHT,
        (high_x(ps) - low_x(ps)) * CELL_WIDTH + 2 * CELL_HEIGHT,
        (high_y(ps) - low_y(ps)) * CELL_HEIGHT + 2 * CELL_HEIGHT,
    )
}

pub open spec fn background_spec(min_x: int, min_y: int, span_x: int, span_y: int) -> Seq<char> {
    "<rect x=\""@ + num(min_x) + "\" y=\""@ + num(min_y) + "\" width=\""@ + num(span_x)
        + "\" height=\""@ + num(span_y) + "\" fill=\""@ + rgb_spec(palette_spec(BACKGROUND).unwrap())
        + "\"/>"@
}

pub open spec fn cursor_spec(p: PlacementModel) -> Seq<char> {
    "<rect x=\""@ + num(p.x * CELL_WIDTH) + "\" y=\""@ + num(p.y * CELL_HEIGHT) + "\" width=\"8\" height=\"16\" fill=\""@
        + rgb_spec(foreground()) + "\"/>"@
}

pub open spec fn escape_char(c: char) -> Seq<char> {
    if c == '&' {
        "&amp;"@
    } else if c == '<' {
        "&lt;"@
    } else if c == '>' {
        "&gt;"@
    } else {
        seq![c]
    }
}

/// Text with `&`, `<` and `>` written as XML entities.
pub open spec fn escape_spec(t: Seq<char>) -> Seq<char>
    decreases t.len(),
{
    if t.len() == 0 {
        Seq::empty()
    } else {
        escape_spec(t.drop_last()) + escape_char(t.last())
    }
}

pub open spec fn marker_spec() -> Seq<char> {
    ARROWHEAD_MARKER@ + rgb_spec(foreground()) + "\" stroke-width=\"1\" fill=\"none\"/></marker></defs>"@
}

pub open spec fn label_spec(p: PlacementModel, text: Seq<char>) -> Seq<char> {
    "<text xml:space=\"preserve\" font-family=\"monospace\" font-size=\""@ + LABEL_FONT_SIZE@
        + "\" text-anchor=\"start\" dominant-baseline=\"central\" x=\""@ + num(p.x * CELL_WIDTH)
        + "\" y=\""@ + num(p.y * CELL_HEIGHT + CELL_HEIGHT / 2) + "\" textLength=\""@ + num(
        text.len() * CELL_WIDTH,
    ) + "\" lengthAdjust=\"spacingAndGlyphs\" fill=\""@ + rgb_spec(foreground()) + "\">"@
        + escape_spec(text) + "</text>"@
}

pub open spec fn rect_spec(p: PlacementModel, colour: Option<u8>, fill: Option<u8>, rounded: bool) -> Seq<char> {
    let stroke = rgb_spec(palette_spec(match colour {
        Some(c) => c,
        None => FOREGROUND,
    }).unwrap());
    "<rect x=\""@ + num(p.x * CELL_WIDTH) + "\" y=\""@ + num(p.y * CELL_HEIGHT) + "\" width=\""@
        + num(p.width * CELL_WIDTH) + "\" height=\""@ + num(p.height * CELL_HEIGHT) + "\" stroke=\""@
        + stroke + "\" stroke-width=\"2\""@ + (if rounded {
        " rx=\"20\""@
    } else {
        Seq::empty()
    }) + match fill {
        Some(f) => " fill=\""@ + rgb_spec(palette_spec(f).unwrap()) + "\" fill-opacity=\""@
            + FILL_OPACITY@ + "\""@,
        None => " fill=\"none\""@,
    } + "/>"@
}

pub open spec fn stop_row(p: PlacementModel, stop: int) -> int {
    (p.y + stop) * CELL_HEIGHT + CELL_HEIGHT / 2
}

pub open spec fn min_of(s: Seq<int>) -> int
    decreases s.len(),
{
    if s.len() <= 1 {
        s[0]
    } else {
        let a = min_of(s.drop_last());
        if s.last() < a {
            s.last()
        } else {
            a
        }
    }
}

pub open spec fn max_of(s: Seq<int>) -> int
    decreases s.len(),
{
    if s.len() <= 1 {
        s[0]
    } else {
        let a = max_of(s.drop_last());
        if s.last() > a {
            s.last()
        } else {
            a
        }
    }
}

pub open spec fn stroke_path(x0: int, y0: int, x1: int, y1: int, end: Seq<char>) -> Seq<char> {
    "<path d=\"M "@ + num(x0) + " "@ + num(y0) + " L "@ + num(x1) + " "@ + num(y1) + "\""@ + end
        + " stroke=\""@ + rgb_spec(foreground()) + "\" stroke-width=\"1\" fill=\"none\"/>"@
}

pub open spec fn stop_paths(p: PlacementModel, stops: Seq<int>) -> Seq<char>
    decreases stops.len(),
{
    if stops.len() == 0 {
        Seq::empty()
    } else {
        let trunk_x = p.x * CELL_WIDTH + (p.width * CELL_WIDTH) / 2;
        let right = p.x * CELL_WIDTH + p.width * CELL_WIDTH - 1;
        let row = stop_row(p, stops.last());
        stop_paths(p, stops.drop_last()) + stroke_path(
            trunk_x - ARROW_JOIN_OVERLAP,
            row,
            right,
            row,
            " marker-end=\"url(#arrowhead)\""@,
        )
    }
}

/// An arrow: the shaft from the parent to the trunk, the trunk down the
/// children's rows, and a line with an arrowhead to each child.
pub open spec fn arrow_spec(p: PlacementModel, stops: Seq<int>, shaft: int) -> Seq<char> {
    let left = p.x * CELL_WIDTH;
    let trunk_x = p.x * CELL_WIDTH + (p.width * CELL_WIDTH) / 2;
    let shaft_row = (p.y + shaft) * CELL_HEIGHT + CELL_HEIGHT / 2;
    let rows = Seq::new(stops.len(), |j: int| stop_row(p, stops[j]));
    "<g opacity=\""@ + ARROW_OPACITY@ + "\">"@ + stroke_path(
        left,
        shaft_row,
        trunk_x + ARROW_JOIN_OVERLAP,
        shaft_row,
        Seq::empty(),
    ) + stroke_path(trunk_x, min_of(rows), trunk_x, max_of(rows), Seq::empty()) + stop_paths(
        p,
        stops,
    ) + "</g>"@
}

pub open spec fn arrows_svg(ps: Seq<PlacementModel>) -> Seq<char>
    decreases ps.len(),
{
    if ps.len() == 0 {
        Seq::empty()
    } else {
        arrows_svg(ps.drop_last()) + match ps.last().node {
            PlacementNodeModel::Arrow { stops, shaft } => arrow_spec(ps.last(), stops, shaft),
            _ => Seq::empty(),
        }
    }
}

pub open spec fn boxes_svg(ps: Seq<PlacementModel>) -> Seq<char>
    decreases ps.len(),
{
    if ps.len() == 0 {
        Seq::empty()
    } else {
        boxes_svg(ps.drop_last()) + match ps.last().node {
            PlacementNodeModel::Box { colour, fill, rounded } => rect_spec(ps.last(), colour, fill, rounded),
            _ => Seq::empty(),
        }
    }
}

pub open spec fn labels_svg(ps: Seq<PlacementModel>) -> Seq<char>
    decreases ps.len(),
{
    if ps.len() == 0 {
        Seq::empty()
    } else {
        labels_svg(ps.drop_last()) + match ps.last().node {
            PlacementNodeModel::Label { text, .. } => label_spec(ps.last(), text),
            _ => Seq::empty(),
        }
    }
}

pub open spec fn cursors_svg(ps: Seq<PlacementModel>) -> Seq<char>
    decreases ps.len(),
{
    if ps.len() == 0 {
        Seq::empty()
    } else {
        cursors_svg(ps.drop_last()) + match ps.last().node {
            PlacementNodeModel::Cursor => cursor_spec(ps.last()),
            _ => Seq::empty(),
        }
    }
}

pub open spec fn has_arrow(ps: Seq<PlacementModel>) -> bool {
    exists|i: int| 0 <= i < ps.len() && #[trigger] ps[i].node is Arrow
}

/// The document: the view box, the background, the arrowhead marker when
/// there are arrows, then the arrows, the boxes, the labels and the cursor,
/// each in the order given.
pub open spec fn draw_spec(r: SvgModel, input: Seq<PlacementModel>) -> Seq<char> {
    let (dx, dy) = offset_spec(r);
    let ps = moved(input, dx, dy);
    let (min_x, min_y, span_x, span_y) = match r.canvas {
        Some((columns, rows)) => (0, 0, columns * CELL_WIDTH, rows * CELL_HEIGHT),
        None => view_box_spec(ps),
    };
    "<svg xmlns=\"http://www.w3.org/2000/svg\" viewBox=\""@ + num(min_x) + " "@ + num(min_y) + " "@
        + num(span_x) + " "@ + num(span_y) + "\">"@ + background_spec(min_x, min_y, span_x, span_y)
        + (if has_arrow(ps) {
        marker_spec()
    } else {
        Seq::empty()
    }) + arrows_svg(ps) + boxes_svg(ps) + labels_svg(ps) + cursors_svg(ps) + "</svg>"@
}


proof fn lemma_bounds(ps: Seq<PlacementModel>)
    ensures
        low_x(ps) <= 0 <= high_x(ps),
        low_y(ps) <= 0 <= high_y(ps),
        forall|i: int|
            0 <= i < ps.len() ==> low_x(ps) <= #[trigger] ps[i].x && ps[i].x + ps[i].width <= high_x(ps)
                && low_y(ps) <= ps[i].y && ps[i].y + ps[i].height <= high_y(ps),
    decreases ps.len(),
{
    if ps.len() > 0 {
        let d = ps.drop_last();
        lemma_bounds(d);
        assert forall|i: int| 0 <= i < ps.len() implies low_x(ps) <= #[trigger] ps[i].x && ps[i].x
            + ps[i].width <= high_x(ps) && low_y(ps) <= ps[i].y && ps[i].y + ps[i].height <= high_y(ps) by {
            if i < d.len() {
                assert(d[i] == ps[i]);
            }
        }
    }
}

/// The view box of a canvas that hugs what is drawn holds every placement
/// and the origin, with one cell height to spare on every side.
pub proof fn law_view_box_holds_everything(ps: Seq<PlacementModel>)
    ensures
        ({
            let (min_x, min_y, span_x, span_y) = view_box_spec(ps);
            &&& min_x + CELL_HEIGHT <= 0 <= min_x + span_x - CELL_HEIGHT
            &&& min_y + CELL_HEIGHT <= 0 <= min_y + span_y - CELL_HEIGHT
            &&& forall|i: int|
                0 <= i < ps.len() ==> min_x + CELL_HEIGHT <= #[trigger] ps[i].x * CELL_WIDTH && (ps[i].x
                    + ps[i].width) * CELL_WIDTH <= min_x + span_x - CELL_HEIGHT && min_y + CELL_HEIGHT
                    <= ps[i].y * CELL_HEIGHT && (ps[i].y + ps[i].height) * CELL_HEIGHT <= min_y + span_y
                    - CELL_HEIGHT
        }),
{
    lemma_bounds(ps);
}

/// On a canvas centred on an extent, a diagram moves by half the room left
/// over each way, rounded down: as much room stays before it as after it, or
/// one cell less; a diagram larger than the canvas does not move.
pub proof fn law_centring_offset(columns: i64, rows: i64, width: i64, height: i64)
    ensures
        ({
            let (dx, dy) = offset_spec(SvgModel { canvas: Some((columns, rows)), extent: Some((width, height)) });
            &&& columns >= width ==> 0 <= dx && 2 * dx <= columns - width <= 2 * dx + 1
            &&& columns < width ==> dx == 0
            &&& rows >= height ==> 0 <= dy && 2 * dy <= rows - height <= 2 * dy + 1
            &&& rows < height ==> dy == 0
        }),
{
}

/// The smallest and the largest of some numbers are among them, and no
/// number lies outside them.
pub proof fn law_min_max_of(s: Seq<int>)
    requires
        s.len() > 0,
    ensures
        forall|i: int| 0 <= i < s.len() ==> min_of(s) <= #[trigger] s[i] <= max_of(s),
        exists|i: int| 0 <= i < s.len() && #[trigger] s[i] == min_of(s),
        exists|i: int| 0 <= i < s.len() && #[trigger] s[i] == max_of(s),
    decreases s.len(),
{
    if s.len() > 1 {
        let d = s.drop_last();
        law_min_max_of(d);
        assert forall|i: int| 0 <= i < s.len() implies min_of(s) <= #[trigger] s[i] <= max_of(s) by {
            if i < d.len() {
                assert(s[i] == d[i]);
            }
        }
        let a = choose|i: int| 0 <= i < d.len() && #[trigger] d[i] == min_of(d);
        let b = choose|i: int| 0 <= i < d.len() && #[trigger] d[i] == max_of(d);
        assert(s[a] == d[a]);
        assert(s[b] == d[b]);
        assert(s[s.len() - 1] == s.last());
    } else {
        assert(s[0] == min_of(s));
    }
}

/// The pixel row through the middle of cell row `row`.
pub open spec fn mid_row(row: int) -> int {
    row * CELL_HEIGHT + CELL_HEIGHT / 2
}

/// The line with an arrowhead from the trunk to the child at a stop: along
/// the middle of the cell row `stop` rows below the arrow's top, out to the
/// arrow's right edge.
pub open spec fn head_path(p: PlacementModel, stop: int) -> Seq<char> {
    let trunk_x = p.x * CELL_WIDTH + (p.width * CELL_WIDTH) / 2;
    let right = p.x * CELL_WIDTH + p.width * CELL_WIDTH - 1;
    let row = mid_row(p.y + stop);
    stroke_path(trunk_x - ARROW_JOIN_OVERLAP, row, right, row, " marker-end=\"url(#arrowhead)\""@)
}

/// Some pieces of text one after another.
pub open spec fn concat_all(s: Seq<Seq<char>>) -> Seq<char>
    decreases s.len(),
{
    if s.len() == 0 {
        Seq::empty()
    } else {
        concat_all(s.drop_last()) + s.last()
    }
}

/// An arrow is drawn as a shaft along the middle of the parent's row, a
/// trunk from the highest to the lowest child's middle row, with no
/// arrowhead, and then one line with an arrowhead for each stop, in the
/// order of the stops, each along the middle of its child's cell row.
pub proof fn law_arrow_paths(p: PlacementModel, stops: Seq<int>, shaft: int)
    ensures
        forall|j: int|
            0 <= j < stops.len() ==> (p.y + stops[j]) * CELL_HEIGHT < #[trigger] mid_row(p.y + stops[j]) < (p.y
                + stops[j] + 1) * CELL_HEIGHT,
        stop_paths(p, stops) == concat_all(Seq::new(stops.len(), |j: int| head_path(p, stops[j]))),
        arrow_spec(p, stops, shaft) == "<g opacity=\""@ + ARROW_OPACITY@ + "\">"@ + stroke_path(
            p.x * CELL_WIDTH,
            (p.y + shaft) * CELL_HEIGHT + CELL_HEIGHT / 2,
            p.x * CELL_WIDTH + (p.width * CELL_WIDTH) / 2 + ARROW_JOIN_OVERLAP,
            (p.y + shaft) * CELL_HEIGHT + CELL_HEIGHT / 2,
            Seq::empty(),
        ) + stroke_path(
            p.x * CELL_WIDTH + (p.width * CELL_WIDTH) / 2,
            min_of(Seq::new(stops.len(), |j: int| mid_row(p.y + stops[j]))),
            p.x * CELL_WIDTH + (p.width * CELL_WIDTH) / 2,
            max_of(Seq::new(stops.len(), |j: int| mid_row(p.y + stops[j]))),
            Seq::empty(),
        ) + concat_all(Seq::new(stops.len(), |j: int| head_path(p, stops[j]))) + "</g>"@,
    decreases stops.len(),
{
    let heads = Seq::new(stops.len(), |j: int| head_path(p, stops[j]));
    assert(Seq::new(stops.len(), |j: int| mid_row(p.y + stops[j])) =~= Seq::new(
        stops.len(),
        |j: int| stop_row(p, stops[j]),
    ));
    if stops.len() > 0 {
        let d = stops.drop_last();
        law_arrow_paths(p, d, shaft);
        assert(heads.drop_last() =~= Seq::new(d.len(), |j: int| head_path(p, d[j])));
        assert(heads.last() == head_path(p, stops.last()));
    } else {
        assert(heads =~= Seq::<Seq<char>>::empty());
    }
}

fn push_rgb(s: &mut String, c: (u8, u8, u8))
    ensures
        final(s)@ == old(s)@ + rgb_spec(c),
{
    push_str(s, "rgb(");
    push_signed(s, c.0 as i64);
    push_str(s, ",");
    push_signed(s, c.1 as i64);
    push_str(s, ",");
    push_signed(s, c.2 as i64);
    push_str(s, ")");
    proof {
        assert(final(s)@ =~= old(s)@ + rgb_spec(c));
    }
}

fn foreground_colour() -> (r: (u8, u8, u8))
    ensures
        r == foreground(),
{
    colour(None)
}

/// The background: a rectangle over the whole view box.
pub fn background_rect(min_x: i64, min_y: i64, span_x: i64, span_y: i64) -> (r: String)
    ensures
        r@ == background_spec(min_x as int, min_y as int, span_x as int, span_y as int),
{
    let back = match palette(BACKGROUND) {
        Some(c) => c,
        None => (0, 0, 0),
    };
    let mut t = String::new();
    push_str(&mut t, "<rect x=\"");
    push_signed(&mut t, min_x);
    push_str(&mut t, "\" y=\"");
    push_signed(&mut t, min_y);
    push_str(&mut t, "\" width=\"");
    push_signed(&mut t, span_x);
    push_str(&mut t, "\" height=\"");
    push_signed(&mut t, span_y);
    push_str(&mut t, "\" fill=\"");
    push_rgb(&mut t, back);
    push_str(&mut t, "\"/>");
    proof {
        assert(t@ =~= background_spec(min_x as int, min_y as int, span_x as int, span_y as int));
    }
    t
}

/// The caret: one cell, filled in the foreground colour.
pub fn cursor_rect(placement: &Placement) -> (r: String)
    requires
        within(placement@, 2 * SVG_REACH as int),
    ensures
        r@ == cursor_spec(placement@),
{
    let mut t = String::new();
    push_str(&mut t, "<rect x=\"");
    push_signed(&mut t, placement.x * CELL_WIDTH);
    push_str(&mut t, "\" y=\"");
    push_signed(&mut t, placement.y * CELL_HEIGHT);
    push_str(&mut t, "\" width=\"8\" height=\"16\" fill=\"");
    push_rgb(&mut t, foreground_colour());
    push_str(&mut t, "\"/>");
    proof {
        assert(t@ =~= cursor_spec(placement@));
    }
    t
}

/// Text with `&`, `<` and `>` written as XML entities.
pub fn escape(text: &str) -> (r: String)
    ensures
        r@ == escape_spec(text@),
{
    let chars = crate::text::chars_of(text);
    let mut out = String::new();
    let mut i: usize = 0;
    proof {
        assert(text@.take(0) =~= Seq::<char>::empty());
    }
    while i < chars.len()
        invariant
            chars@ == text@,
            i <= chars.len(),
            out@ == escape_spec(text@.take(i as int)),
        decreases chars.len() - i,
    {
        let c = chars[i];
        if c == '&' {
            push_str(&mut out, "&amp;");
        } else if c == '<' {
            push_str(&mut out, "&lt;");
        } else if c == '>' {
            push_str(&mut out, "&gt;");
        } else {
            push_char(&mut out, c);
        }
        proof {
            assert(text@.take(i + 1).drop_last() =~= text@.take(i as int));
            assert(text@.take(i + 1).last() == c);
            assert(seq![c] =~= Seq::<char>::empty().push(c));
        }
        i = i + 1;
    }
    proof {
        assert(text@.take(i as int) =~= text@);
    }
    out
}

/// The arrowhead marker that every arrow's lines end in.
pub fn marker_defs() -> (r: String)
    ensures
        r@ == marker_spec(),
{
    let mut t = String::new();
    push_str(&mut t, ARROWHEAD_MARKER);
    push_rgb(&mut t, foreground_colour());
    push_str(&mut t, "\" stroke-width=\"1\" fill=\"none\"/></marker></defs>");
    proof {
        assert(t@ =~= marker_spec());
    }
    t
}

fn push_stroke(t: &mut String, x0: i64, y0: i64, x1: i64, y1: i64, end: &str)
    ensures
        final(t)@ == old(t)@ + stroke_path(x0 as int, y0 as int, x1 as int, y1 as int, end@),
{
    push_str(t, "<path d=\"M ");
    push_signed(t, x0);
    push_str(t, " ");
    push_signed(t, y0);
    push_str(t, " L ");
    push_signed(t, x1);
    push_str(t, " ");
    push_signed(t, y1);
    push_str(t, "\"");
    push_str(t, end);
    push_str(t, " stroke=\"");
    push_rgb(t, foreground_colour());
    push_str(t, "\" stroke-width=\"1\" fill=\"none\"/>");
    proof {
        assert(final(t)@ =~= old(t)@ + stroke_path(x0 as int, y0 as int, x1 as int, y1 as int, end@));
    }
}

pub open spec fn arrow_ok(p: PlacementModel, stops: Seq<int>, shaft: int) -> bool {
    &&& within(p, 2 * SVG_REACH as int)
    &&& stops.len() > 0
    &&& -SVG_REACH <= shaft <= SVG_REACH
    &&& forall|j: int| 0 <= j < stops.len() ==> -SVG_REACH <= #[trigger] stops[j] <= SVG_REACH
}

/// The lines of an arrow, half transparent.
pub fn arrow_paths(placement: &Placement, arrow: &Arrow) -> (r: String)
    requires
        arrow_ok(placement@, crate::layout::ints(arrow.stops@), arrow.shaft as int),
    ensures
        r@ == arrow_spec(placement@, crate::layout::ints(arrow.stops@), arrow.shaft as int),
{
    let ghost p = placement@;
    let ghost stops = crate::layout::ints(arrow.stops@);
    let left = placement.x * CELL_WIDTH;
    let right = placement.x * CELL_WIDTH + placement.width * CELL_WIDTH - 1;
    let trunk_x = placement.x * CELL_WIDTH + (placement.width * CELL_WIDTH) / 2;
    let shaft_row = (placement.y + arrow.shaft) * CELL_HEIGHT + CELL_HEIGHT / 2;
    let ghost rows = Seq::new(stops.len(), |j: int| stop_row(p, stops[j]));
    proof {
        assert(stops[0] == arrow.stops@[0] as int);
        assert(-SVG_REACH <= stops[0] <= SVG_REACH);
    }
    let mut top: i64 = (placement.y + arrow.stops[0]) * CELL_HEIGHT + CELL_HEIGHT / 2;
    let mut bottom: i64 = top;
    let mut i: usize = 1;
    proof {
        assert(stops[0] == arrow.stops@[0] as int);
        assert(rows.take(1)[0] == rows[0]);
    }
    while i < arrow.stops.len()
        invariant
            1 <= i <= arrow.stops.len(),
            p == placement@,
            stops == crate::layout::ints(arrow.stops@),
            rows == Seq::new(stops.len(), |j: int| stop_row(p, stops[j])),
            arrow_ok(p, stops, arrow.shaft as int),
            top == min_of(rows.take(i as int)),
            bottom == max_of(rows.take(i as int)),
        decreases arrow.stops.len() - i,
    {
        proof {
            assert(stops[i as int] == arrow.stops@[i as int] as int);
            assert(-SVG_REACH <= stops[i as int] <= SVG_REACH);
            assert(rows.take(i + 1).drop_last() =~= rows.take(i as int));
            assert(rows.take(i + 1).last() == rows[i as int]);
        }
        let row = (placement.y + arrow.stops[i]) * CELL_HEIGHT + CELL_HEIGHT / 2;
        if row < top {
            top = row;
        }
        if row > bottom {
            bottom = row;
        }
        i = i + 1;
    }
    proof {
        assert(rows.take(i as int) =~= rows);
    }
    let mut t = String::new();
    push_str(&mut t, "<g opacity=\"");
    push_str(&mut t, ARROW_OPACITY);
    push_str(&mut t, "\">");
    push_stroke(&mut t, left, shaft_row, trunk_x + ARROW_JOIN_OVERLAP, shaft_row, "");
    push_stroke(&mut t, trunk_x, top, trunk_x, bottom, "");
    let ghost head = t@;
    proof {
        reveal_strlit("");
        let left_i = p.x * CELL_WIDTH;
        let trunk_i = p.x * CELL_WIDTH + (p.width * CELL_WIDTH) / 2;
        let shaft_i = (p.y + arrow.shaft) * CELL_HEIGHT + CELL_HEIGHT / 2;
        assert(left as int == left_i);
        assert(trunk_x as int == trunk_i);
        assert(shaft_row as int == shaft_i);
        assert(head =~= "<g opacity=\""@ + ARROW_OPACITY@ + "\">"@ + stroke_path(
            left_i,
            shaft_i,
            trunk_i + ARROW_JOIN_OVERLAP,
            shaft_i,
            Seq::empty(),
        ) + stroke_path(trunk_i, min_of(rows), trunk_i, max_of(rows), Seq::empty()));
    }
    let mut k: usize = 0;
    proof {
        assert(stops.take(0) =~= Seq::<int>::empty());
    }
    while k < arrow.stops.len()
        invariant
            k <= arrow.stops.len(),
            p == placement@,
            stops == crate::layout::ints(arrow.stops@),
            arrow_ok(p, stops, arrow.shaft as int),
            trunk_x == p.x * CELL_WIDTH + (p.width * CELL_WIDTH) / 2,
            right == p.x * CELL_WIDTH + p.width * CELL_WIDTH - 1,
            t@ == head + stop_paths(p, stops.take(k as int)),
        decreases arrow.stops.len() - k,
    {
        proof {
            assert(stops[k as int] == arrow.stops@[k as int] as int);
            assert(-SVG_REACH <= stops[k as int] <= SVG_REACH);
            assert(stops.take(k + 1).drop_last() =~= stops.take(k as int));
            assert(stops.take(k + 1).last() == stops[k as int]);
        }
        let row = (placement.y + arrow.stops[k]) * CELL_HEIGHT + CELL_HEIGHT / 2;
        push_stroke(&mut t, trunk_x - ARROW_JOIN_OVERLAP, row, right, row, " marker-end=\"url(#arrowhead)\"");
        proof {
            assert(t@ =~= head + stop_paths(p, stops.take(k + 1)));
        }
        k = k + 1;
    }
    proof {
        assert(stops.take(k as int) =~= stops);
    }
    push_str(&mut t, "</g>");
    proof {
        assert(t@ =~= arrow_spec(p, stops, arrow.shaft as int));
    }
    t
}

/// A box: its border in its colour, rounded or square, and its fill.
pub fn rect(placement: &Placement, colour_index: Option<u8>, fill: Option<u8>, rounded: bool) -> (r: String)
    requires
        within(placement@, 2 * SVG_REACH as int),
        colour_ok(colour_index),
        colour_ok(fill),
    ensures
        r@ == rect_spec(placement@, colour_index, fill, rounded),
{
    let stroke = colour(colour_index);
    let mut t = String::new();
    push_str(&mut t, "<rect x=\"");
    push_signed(&mut t, placement.x * CELL_WIDTH);
    push_str(&mut t, "\" y=\"");
    push_signed(&mut t, placement.y * CELL_HEIGHT);
    push_str(&mut t, "\" width=\"");
    push_signed(&mut t, placement.width * CELL_WIDTH);
    push_str(&mut t, "\" height=\"");
    push_signed(&mut t, placement.height * CELL_HEIGHT);
    push_str(&mut t, "\" stroke=\"");
    push_rgb(&mut t, stroke);
    push_str(&mut t, "\" stroke-width=\"2\"");
    if rounded {
        push_str(&mut t, " rx=\"20\"");
    }
    match fill {
        Some(f) => {
            let c = match palette(f) {
                Some(c) => c,
                None => (0, 0, 0),
            };
            push_str(&mut t, " fill=\"");
            push_rgb(&mut t, c);
            push_str(&mut t, "\" fill-opacity=\"");
            push_str(&mut t, FILL_OPACITY);
            push_str(&mut t, "\"");
        },
        None => {
            push_str(&mut t, " fill=\"none\"");
        },
    }
    push_str(&mut t, "/>");
    proof {
        assert(t@ =~= rect_spec(placement@, colour_index, fill, rounded));
    }
    t
}

/// A label: its text, in the foreground colour, stretched to one cell a
/// character, with its spaces kept.
pub fn label_text(placement: &Placement, label: &Label) -> (r: String)
    requires
        within(placement@, 2 * SVG_REACH as int),
        label.text@.len() <= SVG_REACH,
    ensures
        r@ == label_spec(placement@, label.text@),
{
    let chars = label.text.unicode_len() as i64;
    let mut t = String::new();
    push_str(&mut t, "<text xml:space=\"preserve\" font-family=\"monospace\" font-size=\"");
    push_str(&mut t, LABEL_FONT_SIZE);
    push_str(&mut t, "\" text-anchor=\"start\" dominant-baseline=\"central\" x=\"");
    push_signed(&mut t, placement.x * CELL_WIDTH);
    push_str(&mut t, "\" y=\"");
    push_signed(&mut t, placement.y * CELL_HEIGHT + CELL_HEIGHT / 2);
    push_str(&mut t, "\" textLength=\"");
    push_signed(&mut t, chars * CELL_WIDTH);
    push_str(&mut t, "\" lengthAdjust=\"spacingAndGlyphs\" fill=\"");
    push_rgb(&mut t, foreground_colour());
    push_str(&mut t, "\">");
    let escaped = escape(label.text);
    push_str(&mut t, escaped.as_str());
    push_str(&mut t, "</text>");
    proof {
        assert(t@ =~= label_spec(placement@, label.text@));
    }
    t
}

/// The pixels that the placements and the origin cover, with a margin.
pub fn view_box(placements: &Vec<Placement>) -> (r: (i64, i64, i64, i64))
    requires
        all_within(views(placements@), 2 * SVG_REACH as int),
    ensures
        r.0 == view_box_spec(views(placements@)).0,
        r.1 == view_box_spec(views(placements@)).1,
        r.2 == view_box_spec(views(placements@)).2,
        r.3 == view_box_spec(views(placements@)).3,
{
    let ghost ps = views(placements@);
    let mut min_x: i64 = 0;
    let mut min_y: i64 = 0;
    let mut max_x: i64 = 0;
    let mut max_y: i64 = 0;
    let mut i: usize = 0;
    proof {
        assert(ps.take(0) =~= Seq::<PlacementModel>::empty());
    }
    while i < placements.len()
        invariant
            i <= placements.len(),
            ps == views(placements@),
            all_within(ps, 2 * SVG_REACH as int),
            min_x == low_x(ps.take(i as int)),
            min_y == low_y(ps.take(i as int)),
            max_x == high_x(ps.take(i as int)),
            max_y == high_y(ps.take(i as int)),
            -2 * SVG_REACH <= min_x <= 0,
            -2 * SVG_REACH <= min_y <= 0,
            0 <= max_x <= 4 * SVG_REACH,
            0 <= max_y <= 4 * SVG_REACH,
        decreases placements.len() - i,
    {
        proof {
            assert(within(ps[i as int], 2 * SVG_REACH as int));
            assert(ps.take(i + 1).drop_last() =~= ps.take(i as int));
            assert(ps.take(i + 1).last() == ps[i as int]);
        }
        let p = &placements[i];
        if p.x < min_x {
            min_x = p.x;
        }
        if p.y < min_y {
            min_y = p.y;
        }
        if p.x + p.width > max_x {
            max_x = p.x + p.width;
        }
        if p.y + p.height > max_y {
            max_y = p.y + p.height;
        }
        i = i + 1;
    }
    proof {
        assert(ps.take(i as int) =~= ps);
    }
    (
        min_x * CELL_WIDTH - CELL_HEIGHT,
        min_y * CELL_HEIGHT - CELL_HEIGHT,
        (max_x - min_x) * CELL_WIDTH + 2 * CELL_HEIGHT,
        (max_y - min_y) * CELL_HEIGHT + 2 * CELL_HEIGHT,
    )
}

impl SvgRenderer {
    /// A renderer onto a canvas of a fixed number of columns and rows.
    pub fn with_canvas(columns: i64, rows: i64) -> (r: Self)
        ensures
            r@ == (SvgModel { canvas: Some((columns, rows)), extent: None }),
    {
        SvgRenderer { canvas: Some((columns, rows)), extent: None }
    }

    /// The same renderer, centring a diagram of the given size on its canvas.
    pub fn centered_on(self, width: i64, height: i64) -> (r: Self)
        ensures
            r@ == (SvgModel { extent: Some((width, height)), ..self@ }),
    {
        SvgRenderer { extent: Some((width, height)), ..self }
    }

    /// How far a diagram moves to sit in the middle of the canvas: half the
    /// room left over, rounded down, and never less than nothing.
    pub fn centering_offset(&self) -> (r: (i64, i64))
        requires
            renderer_ok(self@),
        ensures
            r.0 == offset_spec(self@).0,
            r.1 == offset_spec(self@).1,
    {
        match (self.canvas, self.extent) {
            (Some((columns, rows)), Some((width, height))) => {
                let dx = (columns - width) / 2;
                let dy = (rows - height) / 2;
                (if dx >= 0 {
                    dx
                } else {
                    0
                }, if dy >= 0 {
                    dy
                } else {
                    0
                })
            },
            _ => (0, 0),
        }
    }
}


proof fn lemma_shifted(input: Seq<PlacementModel>, dx: int, dy: int, i: int)
    requires
        all_drawable(input),
        0 <= dx <= AREA_REACH,
        0 <= dy <= AREA_REACH,
        0 <= i < input.len(),
    ensures
        within(moved(input, dx, dy)[i], 2 * SVG_REACH as int),
        moved(input, dx, dy)[i].node == input[i].node,
        drawable(input[i]),
{
    assert(drawable(input[i]));
}

fn copy_placements<'a>(placements: &Vec<Placement<'a>>) -> (r: Vec<Placement<'a>>)
    ensures
        views(r@) == views(placements@),
{
    let mut r: Vec<Placement<'a>> = Vec::new();
    let mut i: usize = 0;
    while i < placements.len()
        invariant
            i <= placements.len(),
            r@.len() == i,
            forall|j: int| 0 <= j < i ==> (#[trigger] r@[j])@ == placements@[j]@,
        decreases placements.len() - i,
    {
        r.push(placements[i].clone());
        i = i + 1;
    }
    proof {
        assert(views(r@) =~= views(placements@));
    }
    r
}


fn push_arrows(svg: &mut String, shifted: &Vec<Placement>)
    requires
        shifted_ok(views(shifted@)),
    ensures
        final(svg)@ == old(svg)@ + arrows_svg(views(shifted@)),
{
    let ghost ps = views(shifted@);
    let ghost head = svg@;
    let mut i: usize = 0;
    proof {
        assert(ps.take(0) =~= Seq::<PlacementModel>::empty());
    }
    while i < shifted.len()
        invariant
            i <= shifted.len(),
            ps == views(shifted@),
            shifted_ok(ps),
            svg@ == head + arrows_svg(ps.take(i as int)),
        decreases shifted.len() - i,
    {
        proof {
            assert(within(ps[i as int], 2 * SVG_REACH as int) && node_ok(ps[i as int].node));
            assert(ps.take(i + 1).drop_last() =~= ps.take(i as int));
            assert(ps.take(i + 1).last() == ps[i as int]);
        }
        match &shifted[i].node {
            PlacementNode::Arrow(a) => {
                let t = arrow_paths(&shifted[i], a);
                push_str(svg, t.as_str());
            },
            _ => {},
        }
        proof {
            assert(svg@ =~= head + arrows_svg(ps.take(i + 1)));
        }
        i = i + 1;
    }
    proof {
        assert(ps.take(i as int) =~= ps);
    }
}

fn push_boxes(svg: &mut String, shifted: &Vec<Placement>)
    requires
        shifted_ok(views(shifted@)),
    ensures
        final(svg)@ == old(svg)@ + boxes_svg(views(shifted@)),
{
    let ghost ps = views(shifted@);
    let ghost head = svg@;
    let mut i: usize = 0;
    proof {
        assert(ps.take(0) =~= Seq::<PlacementModel>::empty());
    }
    while i < shifted.len()
        invariant
            i <= shifted.len(),
            ps == views(shifted@),
            shifted_ok(ps),
            svg@ == head + boxes_svg(ps.take(i as int)),
        decreases shifted.len() - i,
    {
        proof {
            assert(within(ps[i as int], 2 * SVG_REACH as int) && node_ok(ps[i as int].node));
            assert(ps.take(i + 1).drop_last() =~= ps.take(i as int));
            assert(ps.take(i + 1).last() == ps[i as int]);
        }
        match &shifted[i].node {
            PlacementNode::Box { colour, fill, rounded } => {
                let t = rect(&shifted[i], *colour, *fill, *rounded);
                push_str(svg, t.as_str());
            },
            _ => {},
        }
        proof {
            assert(svg@ =~= head + boxes_svg(ps.take(i + 1)));
        }
        i = i + 1;
    }
    proof {
        assert(ps.take(i as int) =~= ps);
    }
}

fn push_labels(svg: &mut String, shifted: &Vec<Placement>)
    requires
        shifted_ok(views(shifted@)),
    ensures
        final(svg)@ == old(svg)@ + labels_svg(views(shifted@)),
{
    let ghost ps = views(shifted@);
    let ghost head = svg@;
    let mut i: usize = 0;
    proof {
        assert(ps.take(0) =~= Seq::<PlacementModel>::empty());
    }
    while i < shifted.len()
        invariant
            i <= shifted.len(),
            ps == views(shifted@),
            shifted_ok(ps),
            svg@ == head + labels_svg(ps.take(i as int)),
        decreases shifted.len() - i,
    {
        proof {
            assert(within(ps[i as int], 2 * SVG_REACH as int) && node_ok(ps[i as int].node));
            assert(ps.take(i + 1).drop_last() =~= ps.take(i as int));
            assert(ps.take(i + 1).last() == ps[i as int]);
        }
        match &shifted[i].node {
            PlacementNode::Label(label) => {
                let t = label_text(&shifted[i], label);
                push_str(svg, t.as_str());
            },
            _ => {},
        }
        proof {
            assert(svg@ =~= head + labels_svg(ps.take(i + 1)));
        }
        i = i + 1;
    }
    proof {
        assert(ps.take(i as int) =~= ps);
    }
}

fn push_cursors(svg: &mut String, shifted: &Vec<Placement>)
    requires
        shifted_ok(views(shifted@)),
    ensures
        final(svg)@ == old(svg)@ + cursors_svg(views(shifted@)),
{
    let ghost ps = views(shifted@);
    let ghost head = svg@;
    let mut i: usize = 0;
    proof {
        assert(ps.take(0) =~= Seq::<PlacementModel>::empty());
    }
    while i < shifted.len()
        invariant
            i <= shifted.len(),
            ps == views(shifted@),
            shifted_ok(ps),
            svg@ == head + cursors_svg(ps.take(i as int)),
        decreases shifted.len() - i,
    {
        proof {
            assert(within(ps[i as int], 2 * SVG_REACH as int) && node_ok(ps[i as int].node));
            assert(ps.take(i + 1).drop_last() =~= ps.take(i as int));
            assert(ps.take(i + 1).last() == ps[i as int]);
        }
        match &shifted[i].node {
            PlacementNode::Cursor(_) => {
                let t = cursor_rect(&shifted[i]);
                push_str(svg, t.as_str());
            },
            _ => {},
        }
        proof {
            assert(svg@ =~= head + cursors_svg(ps.take(i + 1)));
        }
        i = i + 1;
    }
    proof {
        assert(ps.take(i as int) =~= ps);
    }
}

impl SvgRenderer {
    /// The SVG document for the placements.
    pub fn draw(&self, placements: &Vec<Placement>) -> (r: String)
        requires
            renderer_ok(self@),
            all_drawable(views(placements@)),
        ensures
            r@ == draw_spec(self@, views(placements@)),
    {
        let ghost input = views(placements@);
        let (dx, dy) = self.centering_offset();
        proof {
            assert forall|i: int| 0 <= i < input.len() implies within(#[trigger] input[i], PLACE_LIMIT as int) by {
                assert(drawable(input[i]));
            }
        }
        let shifted = offset(copy_placements(placements), dx, dy);
        let ghost ps = views(shifted@);
        proof {
            assert(ps == moved(input, dx as int, dy as int));
            assert forall|i: int| 0 <= i < ps.len() implies within(#[trigger] ps[i], 2 * SVG_REACH as int) by {
                lemma_shifted(input, dx as int, dy as int, i);
            }
        }
        let (min_x, min_y, span_x, span_y) = match self.canvas {
            Some((columns, rows)) => (0, 0, columns * CELL_WIDTH, rows * CELL_HEIGHT),
            None => view_box(&shifted),
        };
        let mut svg = String::new();
        push_str(&mut svg, "<svg xmlns=\"http://www.w3.org/2000/svg\" viewBox=\"");
        push_signed(&mut svg, min_x);
        push_str(&mut svg, " ");
        push_signed(&mut svg, min_y);
        push_str(&mut svg, " ");
        push_signed(&mut svg, span_x);
        push_str(&mut svg, " ");
        push_signed(&mut svg, span_y);
        push_str(&mut svg, "\">");
        let back = background_rect(min_x, min_y, span_x, span_y);
        push_str(&mut svg, back.as_str());
        let mut any_arrow = false;
        let mut i: usize = 0;
        while i < shifted.len()
            invariant
                i <= shifted.len(),
                ps == views(shifted@),
                any_arrow == exists|j: int| 0 <= j < i && #[trigger] ps[j].node is Arrow,
            decreases shifted.len() - i,
        {
            let arrow = match &shifted[i].node {
                PlacementNode::Arrow(_) => true,
                _ => false,
            };
            proof {
                assert(arrow == ps[i as int].node is Arrow);
            }
            any_arrow = any_arrow || arrow;
            i = i + 1;
        }
        if any_arrow {
            let defs = marker_defs();
            push_str(&mut svg, defs.as_str());
        }
        proof {
            assert forall|i: int| 0 <= i < ps.len() implies within(#[trigger] ps[i], 2 * SVG_REACH as int) && node_ok(ps[i].node) by {
                lemma_shifted(input, dx as int, dy as int, i);
            }
        }
        push_arrows(&mut svg, &shifted);
        push_boxes(&mut svg, &shifted);
        push_labels(&mut svg, &shifted);
        push_cursors(&mut svg, &shifted);
        push_str(&mut svg, "</svg>");
        proof {
            assert(svg@ =~= draw_spec(self@, input));
        }
        svg
    }
}

/// The SVG document of a document's diagram: the layout of its boxes, with
/// a caret after the selected box's label.
pub open spec fn render_spec(r: SvgModel, doc: DocModel) -> Seq<char> {
    draw_spec(r, with_cursor_spec(diagram_spec(doc.boxes), selection_indices(doc.selected)))
}

proof fn lemma_drawable(ps: Seq<PlacementModel>, sel: Option<Seq<usize>>)
    requires
        all_bounded(ps),
        all_content_ok(ps),
    ensures
        all_drawable(with_cursor_spec(ps, sel)),
{
    assert forall|i: int| 0 <= i < ps.len() implies drawable(#[trigger] ps[i]) by {
        assert(bounded(ps[i]));
        assert(content_ok(ps[i]));
    }
    match sel {
        Some(path) => {
            if exists|k: int| first_label(ps, path, k) {
                let k = first_label_index(ps, path);
                assert(bounded(ps[k]));
                let q = ps.push(cursor_after(ps[k]));
                assert forall|i: int| 0 <= i < q.len() implies drawable(#[trigger] q[i]) by {
                    if i < ps.len() {
                        assert(q[i] == ps[i]);
                    }
                }
            }
        },
        None => {},
    }
}

impl SvgRenderer {
    /// The SVG document of a state's diagram, with a caret after the
    /// selected box's label.
    pub fn render(&self, state: &State) -> (r: String)
        requires
            renderer_ok(self@),
            layout_fits(state@.doc.boxes),
            colours_ok(state@.doc.boxes),
        ensures
            r@ == render_spec(self@, state@.doc),
    {
        let laid = diagram(&state.doc.boxes);
        let selected = match &state.doc.selected {
            Some(p) => Some(indices(p)),
            None => None,
        };
        proof {
            lemma_diagram_content(state@.doc.boxes);
            lemma_drawable(views(laid@), selection_indices(state@.doc.selected));
        }
        let marked = with_cursor(laid, selected);
        self.draw(&marked)
    }
}

} // verus!
