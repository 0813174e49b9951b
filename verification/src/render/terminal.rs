//! Drawing on the terminal: characters in a grid, and sprites sent with the
//! Kitty graphics protocol on top of them.
use vstd::prelude::*;
use crate::canvas::{Canvas, Rgba, Shape, PIXEL_LIMIT, filled};
use crate::layout::{Placement, PlacementNode, PlacementModel, PlacementNodeModel, views, within, all_within, right_edge, bottom_edge};
use crate::render::{colour, left_edge, OPAQUE, FILL_ALPHA};
use crate::render::shapes::{ArrowShape, ArrowModel, arrow_colour, SHAPE_REACH};
use crate::render::svg::{min_of, max_of};
use crate::canvas::{channel, cropped};
use crate::palette::{palette, palette_spec, FOREGROUND};
use crate::diagram::colour_ok;
use crate::kitty;
use crate::status_line::{StatusLine, Segment, Style, segments_view};
use crate::palette::BACKGROUND;
use crate::text::{signed_decimal, push_signed, chars_of};
use crate::text::{push_str, push_char};
use vstd::utf8::encode_utf8;

verus! {

/// What an empty cell holds.
pub const BLANK: char = ' ';

/// Moves the cursor to the top-left cell.
pub const HOME_CURSOR: &'static str = "\x1b[H";

/// Thickness of an arrow's strokes, in pixels.
pub const ARROW_STROKE: i64 = 3;

/// How many sprites the renderer keeps before it starts over.
pub const CACHE_LIMIT: usize = 512;

/// A pixel that shows nothing.
pub const TRANSPARENT: (u8, u8, u8, u8) = (0, 0, 0, 0);

/// How opaque arrows are: half of full opacity, rounded up.
pub const ARROW_ALPHA: u8 = 128;

/// How far from zero the terminal's sizes may reach.
pub const SCREEN_REACH: i64 = 0x10_0000;

/// The terminal: its size in cells, and the size of a cell in pixels.
#[derive(Debug, Clone, Copy, PartialEq, Eq)]
pub struct Window {
    pub cols: i64,
    pub rows: i64,
    pub cell_width: i64,
    pub cell_height: i64,
}

pub open spec fn window_ok(w: Window) -> bool {
    &&& 0 <= w.cols <= SCREEN_REACH
    &&& 0 <= w.rows <= SCREEN_REACH
    &&& 0 <= w.cell_width <= SCREEN_REACH
    &&& 0 <= w.cell_height <= SCREEN_REACH
}

/// The nearest whole number to `n / 255`.
pub open spec fn nearest_255th(n: int) -> int {
    (2 * n + 255) / 510
}

/// A box's fill: its colour at the fill alpha over black, made opaque; or
/// nothing when it is not filled or has no colour.
pub open spec fn fill_spec(c: Option<u8>, filled: bool) -> (u8, u8, u8, u8) {
    match c {
        Some(i) if filled => {
            let (r, g, b) = palette_spec(i).unwrap();
            (
                nearest_255th(r * FILL_ALPHA) as u8,
                nearest_255th(g * FILL_ALPHA) as u8,
                nearest_255th(b * FILL_ALPHA) as u8,
                OPAQUE,
            )
        },
        _ => TRANSPARENT,
    }
}

fn scale(channel: u8) -> (r: u8)
    ensures
        r == nearest_255th(channel * FILL_ALPHA),
{
    let v: u32 = channel as u32;
    proof {
        assert(2 * v * 77 + 255 <= 2 * 255 * 77 + 255) by (nonlinear_arith)
            requires
                v <= 255,
        ;
        assert((2 * v * 77 + 255) / 510 <= 77) by (nonlinear_arith)
            requires
                v <= 255,
        ;
    }
    ((2 * v * 77 + 255) / 510) as u8
}

/// The fill of a box with the given colour.
pub fn fill_colour(c: Option<u8>, filled: bool) -> (r: (u8, u8, u8, u8))
    requires
        colour_ok(c),
    ensures
        r == fill_spec(c, filled),
{
    match c {
        Some(i) => {
            if filled {
                let (r, g, b) = match palette(i) {
                    Some(rgb) => rgb,
                    None => (0, 0, 0),
                };
                (scale(r), scale(g), scale(b), OPAQUE)
            } else {
                TRANSPARENT
            }
        },
        None => TRANSPARENT,
    }
}

/// One channel of `over`, `alpha` out of 255 opaque, laid over `under`:
/// the nearest whole number.
pub open spec fn blend_spec(over: int, under: int, alpha: int) -> int {
    nearest_255th(over * alpha + under * (255 - alpha))
}

fn blend(over: u8, under: u8, alpha: u8) -> (r: u8)
    ensures
        r == blend_spec(over as int, under as int, alpha as int),
{
    let o: u32 = over as u32;
    let u: u32 = under as u32;
    let a: u32 = alpha as u32;
    proof {
        assert(o * a + u * (255 - a) <= 255 * 255) by (nonlinear_arith)
            requires
                o <= 255,
                u <= 255,
                a <= 255,
        ;
    }
    let n: u32 = o * a + u * (255 - a);
    ((2 * n + 255) / 510) as u8
}

/// A colour laid over an opaque backdrop.
pub fn composite(overlay: (u8, u8, u8, u8), backdrop: (u8, u8, u8)) -> (r: (u8, u8, u8))
    ensures
        r.0 == blend_spec(overlay.0 as int, backdrop.0 as int, overlay.3 as int),
        r.1 == blend_spec(overlay.1 as int, backdrop.1 as int, overlay.3 as int),
        r.2 == blend_spec(overlay.2 as int, backdrop.2 as int, overlay.3 as int),
{
    let (r, g, b, alpha) = overlay;
    (blend(r, backdrop.0, alpha), blend(g, backdrop.1, alpha), blend(b, backdrop.2, alpha))
}

/// What a sprite looks like, so that sprites that look the same are drawn
/// once.
#[derive(Debug, PartialEq, Eq, Hash)]
pub enum SpriteKey {
    Box { width: i64, height: i64, colour: Option<u8>, fill: Option<u8>, rounded: bool },
    Arrow { width: i64, height: i64, stops: Vec<i64>, shaft: i64 },
}

pub enum SpriteKeyModel {
    Box { width: int, height: int, colour: Option<u8>, fill: Option<u8>, rounded: bool },
    Arrow { width: int, height: int, stops: Seq<int>, shaft: int },
}

impl View for SpriteKey {
    type V = SpriteKeyModel;

    open spec fn view(&self) -> SpriteKeyModel {
        match self {
            SpriteKey::Box { width, height, colour, fill, rounded } => SpriteKeyModel::Box {
                width: *width as int,
                height: *height as int,
                colour: *colour,
                fill: *fill,
                rounded: *rounded,
            },
            SpriteKey::Arrow { width, height, stops, shaft } => SpriteKeyModel::Arrow {
                width: *width as int,
                height: *height as int,
                stops: crate::layout::ints(stops@),
                shaft: *shaft as int,
            },
        }
    }
}

pub open spec fn sprite_key_spec(p: PlacementModel) -> SpriteKeyModel {
    match p.node {
        PlacementNodeModel::Box { colour, fill, rounded } => SpriteKeyModel::Box {
            width: p.width,
            height: p.height,
            colour,
            fill,
            rounded,
        },
        PlacementNodeModel::Arrow { stops, shaft } => SpriteKeyModel::Arrow {
            width: p.width,
            height: p.height,
            stops,
            shaft,
        },
        _ => SpriteKeyModel::Arrow { width: 0, height: 0, stops: Seq::empty(), shaft: 0 },
    }
}

/// The look of a box or an arrow: its size and what it is drawn with.
pub fn sprite_key(placement: &Placement) -> (r: SpriteKey)
    requires
        placement@.node is Box || placement@.node is Arrow,
    ensures
        r@ == sprite_key_spec(placement@),
{
    match &placement.node {
        PlacementNode::Box { colour, fill, rounded } => SpriteKey::Box {
            width: placement.width,
            height: placement.height,
            colour: *colour,
            fill: *fill,
            rounded: *rounded,
        },
        PlacementNode::Arrow(arrow) => {
            let mut stops: Vec<i64> = Vec::new();
            let mut i: usize = 0;
            while i < arrow.stops.len()
                invariant
                    i <= arrow.stops.len(),
                    stops@ == arrow.stops@.take(i as int),
                decreases arrow.stops.len() - i,
            {
                stops.push(arrow.stops[i]);
                i = i + 1;
                proof {
                    assert(stops@ =~= arrow.stops@.take(i as int));
                }
            }
            proof {
                assert(arrow.stops@.take(i as int) =~= arrow.stops@);
            }
            SpriteKey::Arrow { width: placement.width, height: placement.height, stops, shaft: arrow.shaft }
        },
        _ => SpriteKey::Arrow { width: 0, height: 0, stops: Vec::new(), shaft: 0 },
    }
}

/// A colour at every pixel.
pub struct SolidShape {
    pub colour: Rgba,
}

impl Shape for SolidShape {
    open spec fn shape_ok(&self) -> bool {
        true
    }

    open spec fn colour_spec(&self, x: int, y: int) -> Option<[u8; 4]> {
        Some(self.colour)
    }

    fn colour_at(&self, x: i64, y: i64) -> (r: Option<[u8; 4]>) {
        Some(self.colour)
    }
}

/// The part of a sprite that shows: the cell it starts at, and the window
/// of its pixels.
#[derive(Debug, Clone, Copy, PartialEq, Eq, Hash)]
pub struct Crop {
    pub col: i64,
    pub row: i64,
    pub first_x: i64,
    pub last_x: i64,
    pub first_y: i64,
    pub last_y: i64,
}

/// A picture at a cell.
#[derive(Debug)]
pub struct Placed {
    pub canvas: Canvas,
    pub col: i64,
    pub row: i64,
}

/// One screenful: the characters of every cell, and the pictures drawn
/// over them, with the diagram moved by `origin`.
#[derive(Debug)]
pub struct Frame {
    pub window: Window,
    pub origin: (i64, i64),
    pub characters: Vec<Vec<char>>,
    pub images: Vec<Placed>,
}

/// How far from zero what is placed on the screen may reach.
pub const FRAME_REACH: i64 = 0x100_0000_0000;

/// How far from zero the placements that the screen centres on may reach.
pub const CENTRE_REACH: i64 = 0x40_0000_0000;

pub open spec fn max_int(a: int, b: int) -> int {
    if a >= b {
        a
    } else {
        b
    }
}

pub open spec fn min_int(a: int, b: int) -> int {
    if a <= b {
        a
    } else {
        b
    }
}

/// The part of a placement that falls on the screen, if any.
pub open spec fn crop_spec(w: Window, origin: (i64, i64), p: PlacementModel) -> Option<Crop> {
    let left = p.x + origin.0;
    let top = p.y + origin.1;
    let col = max_int(left, 0);
    let row = max_int(top, 0);
    let right = min_int(left + p.width, w.cols as int);
    let bottom = min_int(top + p.height, w.rows as int);
    if col >= right || row >= bottom {
        None
    } else {
        Some(
            Crop {
                col: col as i64,
                row: row as i64,
                first_x: ((col - left) * w.cell_width) as i64,
                last_x: ((right - left) * w.cell_width) as i64,
                first_y: ((row - top) * w.cell_height) as i64,
                last_y: ((bottom - top) * w.cell_height) as i64,
            },
        )
    }
}

pub open spec fn frame_ok(f: &Frame) -> bool {
    &&& window_ok(f.window)
    &&& -FRAME_REACH <= f.origin.0 <= FRAME_REACH
    &&& -FRAME_REACH <= f.origin.1 <= FRAME_REACH
}

/// The origin that centres placements on the screen: half the room left
/// over either way, rounded down.
pub open spec fn centre_on_spec(w: Window, ps: Seq<PlacementModel>) -> (int, int) {
    if ps.len() == 0 {
        (0, 0)
    } else {
        ((w.cols - (right_edge(ps) - left_edge(ps))) / 2, (w.rows - bottom_edge(ps)) / 2)
    }
}

/// Centring on the screen splits the room the diagram leaves: as many
/// columns stay free left of it as right of it, or one fewer, when it
/// starts at the left edge and fits; and as many rows above its top row
/// (the origin's row) as below its bottom, or one fewer, when it fits.
pub proof fn law_centre_on_splits_the_room(w: Window, ps: Seq<PlacementModel>)
    requires
        ps.len() > 0,
    ensures
        ({
            let (ox, oy) = centre_on_spec(w, ps);
            &&& (left_edge(ps) == 0 && right_edge(ps) <= w.cols) ==> 0 <= (w.cols - (right_edge(ps) + ox)) - ox
                <= 1
            &&& bottom_edge(ps) <= w.rows ==> 0 <= (w.rows - (bottom_edge(ps) + oy)) - oy <= 1
        }),
{
}

fn half_down(v: i64) -> (r: i64)
    requires
        v > i64::MIN,
    ensures
        r == v / 2,
{
    match v.checked_div_euclid(2) {
        Some(h) => h,
        None => 0,
    }
}

impl Frame {
    /// A blank screen the size of the window.
    pub fn new(window: Window) -> (r: Frame)
        requires
            window_ok(window),
        ensures
            r.window == window,
            r.origin == (0i64, 0i64),
            r.characters@.len() == window.rows,
            forall|y: int| 0 <= y < window.rows ==> (#[trigger] r.characters@[y])@ == Seq::new(window.cols as nat, |x: int| BLANK),
            r.images@.len() == 0,
    {
        let mut characters: Vec<Vec<char>> = Vec::new();
        let mut y: i64 = 0;
        while y < window.rows
            invariant
                window_ok(window),
                0 <= y <= window.rows,
                characters@.len() == y,
                forall|j: int| 0 <= j < y ==> (#[trigger] characters@[j])@ == Seq::new(window.cols as nat, |x: int| BLANK),
            decreases window.rows - y,
        {
            let mut line: Vec<char> = Vec::new();
            let mut x: i64 = 0;
            while x < window.cols
                invariant
                    window_ok(window),
                    0 <= x <= window.cols,
                    line@ == Seq::new(x as nat, |i: int| BLANK),
                decreases window.cols - x,
            {
                line.push(BLANK);
                x = x + 1;
                proof {
                    assert(line@ =~= Seq::new(x as nat, |i: int| BLANK));
                }
            }
            characters.push(line);
            y = y + 1;
        }
        Frame { window, origin: (0, 0), characters, images: Vec::new() }
    }

    /// Moves the origin so that the placements sit in the middle of the
    /// screen.
    pub fn centre_on(&mut self, placements: &Vec<Placement>)
        requires
            window_ok(old(self).window),
            all_within(views(placements@), CENTRE_REACH as int),
        ensures
            final(self).window == old(self).window,
            final(self).origin.0 == centre_on_spec(old(self).window, views(placements@)).0,
            final(self).origin.1 == centre_on_spec(old(self).window, views(placements@)).1,
    {
        let ghost ps = views(placements@);
        if placements.len() == 0 {
            self.origin = (0, 0);
            return;
        }
        proof {
            crate::render::lemma_edges_within(ps, CENTRE_REACH as int);
        }
        let mut min_x: i64 = placements[0].x;
        let mut max_right: i64 = placements[0].x + placements[0].width;
        let mut max_bottom: i64 = placements[0].y + placements[0].height;
        let mut i: usize = 1;
        proof {
            assert(within(ps[0], CENTRE_REACH as int));
            assert(ps.take(1)[0] == ps[0]);
        }
        while i < placements.len()
            invariant
                1 <= i <= placements.len(),
                ps == views(placements@),
                all_within(ps, CENTRE_REACH as int),
                min_x == left_edge(ps.take(i as int)),
                max_right == right_edge(ps.take(i as int)),
                max_bottom == bottom_edge(ps.take(i as int)),
            decreases placements.len() - i,
        {
            proof {
                assert(within(ps[i as int], CENTRE_REACH as int));
                assert(ps.take(i + 1).drop_last() =~= ps.take(i as int));
                assert(ps.take(i + 1).last() == ps[i as int]);
            }
            let p = &placements[i];
            if p.x < min_x {
                min_x = p.x;
            }
            if p.x + p.width > max_right {
                max_right = p.x + p.width;
            }
            if p.y + p.height > max_bottom {
                max_bottom = p.y + p.height;
            }
            i = i + 1;
        }
        proof {
            assert(ps.take(i as int) =~= ps);
        }
        let span = max_right - min_x;
        let horizontal = half_down(self.window.cols - span);
        let vertical = half_down(self.window.rows - max_bottom);
        self.origin = (horizontal, vertical);
    }

    /// The part of a placement that falls on the screen, if any.
    pub fn crop(&self, placement: &Placement) -> (r: Option<Crop>)
        requires
            frame_ok(self),
            within(placement@, FRAME_REACH as int),
        ensures
            r == crop_spec(self.window, self.origin, placement@),
    {
        let left = placement.x + self.origin.0;
        let top = placement.y + self.origin.1;
        let col = if left > 0 {
            left
        } else {
            0
        };
        let row = if top > 0 {
            top
        } else {
            0
        };
        let right = if left + placement.width < self.window.cols {
            left + placement.width
        } else {
            self.window.cols
        };
        let bottom = if top + placement.height < self.window.rows {
            top + placement.height
        } else {
            self.window.rows
        };
        if col >= right || row >= bottom {
            return None;
        }
        proof {
            assert(-4 * FRAME_REACH <= (col - left) * self.window.cell_width <= 4 * FRAME_REACH * SCREEN_REACH) by (nonlinear_arith)
                requires
                    0 <= col - left <= 4 * FRAME_REACH,
                    0 <= self.window.cell_width <= SCREEN_REACH,
            ;
            assert(-4 * FRAME_REACH * SCREEN_REACH <= (right - left) * self.window.cell_width <= 4 * FRAME_REACH * SCREEN_REACH) by (nonlinear_arith)
                requires
                    -4 * FRAME_REACH <= right - left <= 4 * FRAME_REACH,
                    0 <= self.window.cell_width <= SCREEN_REACH,
            ;
            assert(-4 * FRAME_REACH <= (row - top) * self.window.cell_height <= 4 * FRAME_REACH * SCREEN_REACH) by (nonlinear_arith)
                requires
                    0 <= row - top <= 4 * FRAME_REACH,
                    0 <= self.window.cell_height <= SCREEN_REACH,
            ;
            assert(-4 * FRAME_REACH * SCREEN_REACH <= (bottom - top) * self.window.cell_height <= 4 * FRAME_REACH * SCREEN_REACH) by (nonlinear_arith)
                requires
                    -4 * FRAME_REACH <= bottom - top <= 4 * FRAME_REACH,
                    0 <= self.window.cell_height <= SCREEN_REACH,
            ;
        }
        Some(
            Crop {
                col,
                row,
                first_x: (col - left) * self.window.cell_width,
                last_x: (right - left) * self.window.cell_width,
                first_y: (row - top) * self.window.cell_height,
                last_y: (bottom - top) * self.window.cell_height,
            },
        )
    }

    /// Whether any of a placement falls on the screen.
    pub fn shows(&self, placement: &Placement) -> (r: bool)
        requires
            frame_ok(self),
            within(placement@, FRAME_REACH as int),
        ensures
            r == crop_spec(self.window, self.origin, placement@) is Some,
    {
        let left = placement.x + self.origin.0;
        let top = placement.y + self.origin.1;
        let col = if left > 0 {
            left
        } else {
            0
        };
        let row = if top > 0 {
            top
        } else {
            0
        };
        let right = if left + placement.width < self.window.cols {
            left + placement.width
        } else {
            self.window.cols
        };
        let bottom = if top + placement.height < self.window.rows {
            top + placement.height
        } else {
            self.window.rows
        };
        col < right && row < bottom
    }
}

pub open spec fn canvas_ok(c: &Canvas) -> bool {
    &&& 0 <= c.width
    &&& 0 <= c.height
    &&& c.width * c.height <= PIXEL_LIMIT
    &&& c.pixels@.len() == c.width * c.height * 4
}

/// A sprite that fits its placement: one cell of the placement is one cell
/// of pixels.
pub open spec fn sprite_fits(w: Window, c: &Canvas, p: PlacementModel) -> bool {
    &&& canvas_ok(c)
    &&& 0 <= p.width
    &&& 0 <= p.height
    &&& c.width == p.width * w.cell_width
    &&& c.height == p.height * w.cell_height
}

impl Frame {
    /// Draws the part of a sprite that falls on the screen at its cell.
    pub fn place(&mut self, canvas: &Canvas, placement: &Placement)
        requires
            frame_ok(old(self)),
            within(placement@, FRAME_REACH as int),
            sprite_fits(old(self).window, canvas, placement@),
        ensures
            final(self).window == old(self).window,
            final(self).origin == old(self).origin,
            final(self).characters@ == old(self).characters@,
            match crop_spec(old(self).window, old(self).origin, placement@) {
                None => final(self).images@ == old(self).images@,
                Some(c) => {
                    &&& final(self).images@.len() == old(self).images@.len() + 1
                    &&& final(self).images@.take(old(self).images@.len() as int) == old(self).images@
                    &&& final(self).images@.last().col == c.col
                    &&& final(self).images@.last().row == c.row
                    &&& final(self).images@.last().canvas.width == c.last_x - c.first_x
                    &&& final(self).images@.last().canvas.height == c.last_y - c.first_y
                    &&& final(self).images@.last().canvas.pixels@ == cropped(
                        canvas.pixels@,
                        canvas.width as int,
                        c.first_x as int,
                        c.last_x as int,
                        c.first_y as int,
                        c.last_y as int,
                    )
                },
            },
    {
        let crop = match self.crop(placement) {
            Some(c) => c,
            None => {
                return;
            },
        };
        proof {
            let w = self.window;
            let p = placement@;
            let left = p.x + self.origin.0;
            let right = min_int(left + p.width, w.cols as int);
            let col = max_int(left, 0);
            assert(0 <= (col - left) * w.cell_width) by (nonlinear_arith)
                requires
                    col - left >= 0,
                    w.cell_width >= 0,
            ;
            assert((col - left) * w.cell_width <= (right - left) * w.cell_width) by (nonlinear_arith)
                requires
                    col - left <= right - left,
                    w.cell_width >= 0,
            ;
            assert((right - left) * w.cell_width <= p.width * w.cell_width) by (nonlinear_arith)
                requires
                    right - left <= p.width,
                    w.cell_width >= 0,
            ;
            let top = p.y + self.origin.1;
            let bottom = min_int(top + p.height, w.rows as int);
            let row = max_int(top, 0);
            assert(0 <= (row - top) * w.cell_height) by (nonlinear_arith)
                requires
                    row - top >= 0,
                    w.cell_height >= 0,
            ;
            assert((row - top) * w.cell_height <= (bottom - top) * w.cell_height) by (nonlinear_arith)
                requires
                    row - top <= bottom - top,
                    w.cell_height >= 0,
            ;
            assert((bottom - top) * w.cell_height <= p.height * w.cell_height) by (nonlinear_arith)
                requires
                    bottom - top <= p.height,
                    w.cell_height >= 0,
            ;
        }
        let piece = canvas.crop(crop.first_x, crop.last_x, crop.first_y, crop.last_y);
        self.images.push(Placed { canvas: piece, col: crop.col, row: crop.row });
        proof {
            assert(self.images@.take(old(self).images@.len() as int) =~= old(self).images@);
        }
    }
}

/// The characters of the screen, a line each, with a line break between.
pub open spec fn joined_rows(rows: Seq<Seq<char>>) -> Seq<char>
    decreases rows.len(),
{
    if rows.len() == 0 {
        Seq::empty()
    } else if rows.len() == 1 {
        rows[0]
    } else {
        joined_rows(rows.drop_last()) + "\r\n"@ + rows.last()
    }
}

pub open spec fn show_spec(p: Placed) -> Seq<char> {
    "\x1b["@ + crate::text::signed_decimal(p.row + 1) + ";"@ + crate::text::signed_decimal(p.col + 1)
        + "H"@ + kitty::transmission_spec(p.canvas.pixels@, p.canvas.width as int, p.canvas.height as int)
}

pub open spec fn shows_all(images: Seq<Placed>) -> Seq<char>
    decreases images.len(),
{
    if images.len() == 0 {
        Seq::empty()
    } else {
        shows_all(images.drop_last()) + show_spec(images.last())
    }
}

pub open spec fn row_chars(rows: Seq<Vec<char>>) -> Seq<Seq<char>> {
    rows.map_values(|r: Vec<char>| r@)
}

/// What a frame sends to the terminal: home, the characters, then every
/// picture cleared and drawn afresh.
pub open spec fn frame_text(f: &Frame) -> Seq<char> {
    HOME_CURSOR@ + joined_rows(row_chars(f.characters@)) + kitty::DELETE_ALL@ + shows_all(f.images@)
}

pub open spec fn images_ok(images: Seq<Placed>) -> bool {
    forall|i: int| 0 <= i < images.len() ==> #[trigger] images[i].col < i64::MAX && images[i].row < i64::MAX
}

impl Frame {
    /// The bytes that draw the frame.
    pub fn into_bytes(self) -> (r: Vec<u8>)
        requires
            images_ok(self.images@),
        ensures
            r@ == encode_utf8(frame_text(&self)),
    {
        let ghost rows = row_chars(self.characters@);
        let mut text = String::new();
        push_str(&mut text, HOME_CURSOR);
        let ghost head = text@;
        let mut y: usize = 0;
        proof {
            assert(rows.take(0) =~= Seq::<Seq<char>>::empty());
        }
        while y < self.characters.len()
            invariant
                y <= self.characters@.len(),
                rows == row_chars(self.characters@),
                text@ == head + joined_rows(rows.take(y as int)),
            decreases self.characters.len() - y,
        {
            let ghost before = text@;
            if y > 0 {
                push_str(&mut text, "\r\n");
            }
            let line = &self.characters[y];
            let mut x: usize = 0;
            let ghost start = text@;
            while x < line.len()
                invariant
                    x <= line@.len(),
                    text@ == start + line@.take(x as int),
                decreases line.len() - x,
            {
                push_char(&mut text, line[x]);
                x = x + 1;
                proof {
                    assert(text@ =~= start + line@.take(x as int));
                }
            }
            proof {
                assert(line@.take(x as int) =~= line@);
                assert(rows[y as int] == line@);
                assert(rows.take(y + 1).drop_last() =~= rows.take(y as int));
                assert(rows.take(y + 1).last() == rows[y as int]);
                if y == 0 {
                    assert(rows.take(1) =~= seq![rows[0]]);
                    assert(joined_rows(rows.take(0)) =~= Seq::<char>::empty());
                }
                assert(text@ =~= head + joined_rows(rows.take(y + 1)));
            }
            y = y + 1;
        }
        proof {
            assert(rows.take(y as int) =~= rows);
        }
        push_str(&mut text, kitty::DELETE_ALL);
        let ghost middle = text@;
        let mut i: usize = 0;
        proof {
            assert(self.images@.take(0) =~= Seq::<Placed>::empty());
        }
        while i < self.images.len()
            invariant
                i <= self.images@.len(),
                images_ok(self.images@),
                text@ == middle + shows_all(self.images@.take(i as int)),
            decreases self.images.len() - i,
        {
            let image = &self.images[i];
            proof {
                assert(image.col < i64::MAX && image.row < i64::MAX);
            }
            let shown = kitty::show(&image.canvas, image.col, image.row);
            push_str(&mut text, shown.0.as_str());
            proof {
                assert(self.images@.take(i + 1).drop_last() =~= self.images@.take(i as int));
                assert(self.images@.take(i + 1).last() == self.images@[i as int]);
                assert(text@ =~= middle + shows_all(self.images@.take(i + 1)));
            }
            i = i + 1;
        }
        proof {
            assert(self.images@.take(i as int) =~= self.images@);
            assert(text@ =~= frame_text(&self));
        }
        let bytes = text.as_str().as_bytes();
        let mut out: Vec<u8> = Vec::new();
        let mut k: usize = 0;
        while k < bytes.len()
            invariant
                k <= bytes@.len(),
                out@ == bytes@.take(k as int),
            decreases bytes.len() - k,
        {
            out.push(bytes[k]);
            k = k + 1;
            proof {
                assert(out@ =~= bytes@.take(k as int));
            }
        }
        proof {
            assert(bytes@.take(k as int) =~= bytes@);
        }
        out
    }
}

/// The arrow sprite of an arrow placement: each stop's row and the shaft's
/// row at the middle of their cell, the trunk from the topmost stop to the
/// lowest, in the foreground colour at the arrow opacity.
pub open spec fn arrow_model(w: Window, p: PlacementModel, stops: Seq<int>, shaft: int) -> ArrowModel {
    arrow_model_of(w, p.width, stops, shaft)
}

pub open spec fn arrow_model_of(w: Window, width: int, stops: Seq<int>, shaft: int) -> ArrowModel {
    let rows = Seq::new(stops.len(), |j: int| stops[j] * w.cell_height + w.cell_height / 2);
    let fg = palette_spec(FOREGROUND).unwrap();
    ArrowModel {
        width: width * w.cell_width,
        stop_rows: Seq::new(stops.len(), |j: int| rows[j] as i64),
        shaft_row: shaft * w.cell_height + w.cell_height / 2,
        trunk: (min_of(rows), max_of(rows)),
        stroke: ARROW_STROKE as int,
        ink: [fg.0, fg.1, fg.2, ARROW_ALPHA],
    }
}

/// The pixels of an arrow model over a `width` by `height` sprite.
pub open spec fn arrow_pixels(m: ArrowModel, width: int, height: int) -> Seq<u8> {
    Seq::new(
        (width * height * 4) as nat,
        |k: int| channel(arrow_colour(m, (k / 4) % width, (k / 4) / width), k % 4),
    )
}

/// How far from zero what is drawn as a sprite may reach, in cells.
pub const SPRITE_REACH: i64 = 0x8_0000;

/// An arrow placement that fits in a sprite.
pub open spec fn arrow_fits(w: Window, p: PlacementModel) -> bool {
    &&& p.node matches PlacementNodeModel::Arrow { stops, shaft } && {
        &&& stops.len() > 0
        &&& -SPRITE_REACH <= shaft <= SPRITE_REACH
        &&& forall|j: int| 0 <= j < stops.len() ==> -SPRITE_REACH <= #[trigger] stops[j] <= SPRITE_REACH
    }
    &&& 0 <= p.width <= SPRITE_REACH
    &&& 0 <= p.height <= SPRITE_REACH
    &&& p.width * w.cell_width * (p.height * w.cell_height) <= PIXEL_LIMIT
}

/// The renderer's own state: the window, and the arrow sprites drawn so
/// far, kept by their look.
pub struct TerminalRenderer {
    pub window: Window,
    pub cache: Vec<(SpriteKey, Canvas)>,
    pub cache_limit: usize,
}

impl TerminalRenderer {
    /// A renderer for a window, keeping at most `cache_limit` sprites.
    pub fn new(window: Window, cache_limit: usize) -> (r: Self)
        ensures
            r.window == window,
            r.cache@.len() == 0,
            r.cache_limit == cache_limit,
    {
        TerminalRenderer { window, cache: Vec::new(), cache_limit }
    }

    /// The terminal now has a new number of columns and rows; its cells are
    /// as big as before.
    pub fn on_resize(&mut self, window: Window)
        ensures
            final(self).window == (Window { cols: window.cols, rows: window.rows, ..old(self).window }),
            final(self).cache@ == old(self).cache@,
            final(self).cache_limit == old(self).cache_limit,
    {
        self.window.cols = window.cols;
        self.window.rows = window.rows;
    }

    pub fn cells_to_pixels_x(&self, cells: i64) -> (r: i64)
        requires
            window_ok(self.window),
            -SPRITE_REACH <= cells <= SPRITE_REACH,
        ensures
            r == cells * self.window.cell_width,
            -SPRITE_REACH * SCREEN_REACH <= r <= SPRITE_REACH * SCREEN_REACH,
    {
        proof {
            assert(-SPRITE_REACH * SCREEN_REACH <= cells * self.window.cell_width <= SPRITE_REACH * SCREEN_REACH) by (nonlinear_arith)
                requires
                    -SPRITE_REACH <= cells <= SPRITE_REACH,
                    0 <= self.window.cell_width <= SCREEN_REACH,
            ;
        }
        cells * self.window.cell_width
    }

    pub fn cells_to_pixels_y(&self, cells: i64) -> (r: i64)
        requires
            window_ok(self.window),
            -SPRITE_REACH <= cells <= SPRITE_REACH,
        ensures
            r == cells * self.window.cell_height,
            -SPRITE_REACH * SCREEN_REACH <= r <= SPRITE_REACH * SCREEN_REACH,
    {
        proof {
            assert(-SPRITE_REACH * SCREEN_REACH <= cells * self.window.cell_height <= SPRITE_REACH * SCREEN_REACH) by (nonlinear_arith)
                requires
                    -SPRITE_REACH <= cells <= SPRITE_REACH,
                    0 <= self.window.cell_height <= SCREEN_REACH,
            ;
        }
        cells * self.window.cell_height
    }

    /// The sprite of an arrow placement.
    pub fn outline_arrow(&self, placement: &Placement) -> (r: Canvas)
        requires
            window_ok(self.window),
            arrow_fits(self.window, placement@),
        ensures
            r.width == placement@.width * self.window.cell_width,
            r.height == placement@.height * self.window.cell_height,
            match placement@.node {
                PlacementNodeModel::Arrow { stops, shaft } => r.pixels@ == arrow_pixels(
                    arrow_model(self.window, placement@, stops, shaft),
                    r.width as int,
                    r.height as int,
                ),
                _ => false,
            },
    {
        let arrow = match &placement.node {
            PlacementNode::Arrow(a) => a,
            _ => {
                proof {
                    assert(false);
                }
                return Canvas { pixels: Vec::new(), width: 0, height: 0 };
            },
        };
        let ghost stops = crate::layout::ints(arrow.stops@);
        let ghost model = arrow_model(self.window, placement@, stops, arrow.shaft as int);
        let ghost rows = Seq::new(stops.len(), |j: int| stops[j] * self.window.cell_height + self.window.cell_height / 2);
        let width = self.cells_to_pixels_x(placement.width);
        let height = self.cells_to_pixels_y(placement.height);
        let half = self.window.cell_height / 2;
        let mut stop_rows: Vec<i64> = Vec::new();
        proof {
            assert(stops[0] == arrow.stops@[0] as int);
        }
        let first = self.cells_to_pixels_y(arrow.stops[0]) + half;
        let mut top: i64 = first;
        let mut bottom: i64 = first;
        let mut i: usize = 0;
        proof {
            assert(rows.take(1)[0] == rows[0]);
        }
        while i < arrow.stops.len()
            invariant
                window_ok(self.window),
                arrow_fits(self.window, placement@),
                placement@.node == (PlacementNodeModel::Arrow { stops, shaft: arrow.shaft as int }),
                stops == crate::layout::ints(arrow.stops@),
                rows == Seq::new(stops.len(), |j: int| stops[j] * self.window.cell_height + self.window.cell_height / 2),
                half == self.window.cell_height / 2,
                i <= arrow.stops@.len(),
                stop_rows@.len() == i,
                forall|j: int| 0 <= j < i ==> #[trigger] stop_rows@[j] as int == rows[j],
                i >= 1 ==> top == min_of(rows.take(i as int)),
                i >= 1 ==> bottom == max_of(rows.take(i as int)),
                i == 0 ==> top == rows[0] && bottom == rows[0],
                -SPRITE_REACH * SCREEN_REACH <= top <= SPRITE_REACH * SCREEN_REACH + SCREEN_REACH,
                -SPRITE_REACH * SCREEN_REACH <= bottom <= SPRITE_REACH * SCREEN_REACH + SCREEN_REACH,
            decreases arrow.stops.len() - i,
        {
            proof {
                assert(stops[i as int] == arrow.stops@[i as int] as int);
                assert(-SPRITE_REACH <= stops[i as int] <= SPRITE_REACH);
                assert(rows.take(i + 1).drop_last() =~= rows.take(i as int));
                assert(rows.take(i + 1).last() == rows[i as int]);
            }
            let row = self.cells_to_pixels_y(arrow.stops[i]) + half;
            stop_rows.push(row);
            if i == 0 || row < top {
                top = row;
            }
            if i == 0 || row > bottom {
                bottom = row;
            }
            proof {
                if i == 0 {
                    assert(rows.take(1) =~= seq![rows[0]]);
                }
            }
            i = i + 1;
        }
        proof {
            assert(rows.take(i as int) =~= rows);
        }
        let shaft_row = self.cells_to_pixels_y(arrow.shaft) + half;
        let (r, g, b) = colour(None);
        let shape = ArrowShape {
            width,
            stop_rows,
            shaft_row,
            trunk: (top, bottom),
            stroke: ARROW_STROKE,
            ink: [r, g, b, ARROW_ALPHA],
        };
        proof {
            assert(shape.stop_rows@ =~= model.stop_rows);
            assert(shape.model() == model);
            assert(-SPRITE_REACH * SCREEN_REACH <= width <= SPRITE_REACH * SCREEN_REACH);
            assert forall|j: int| 0 <= j < shape.stop_rows@.len() implies crate::render::shapes::reach_ok(#[trigger] shape.stop_rows@[j] as int) by {
                assert(stops[j] == arrow.stops@[j] as int);
                assert(-SPRITE_REACH <= stops[j] <= SPRITE_REACH);
                assert(-SPRITE_REACH * SCREEN_REACH <= stops[j] * self.window.cell_height <= SPRITE_REACH * SCREEN_REACH) by (nonlinear_arith)
                    requires
                        -SPRITE_REACH <= stops[j] <= SPRITE_REACH,
                        0 <= self.window.cell_height <= SCREEN_REACH,
                ;
            }
            assert(0 <= width && 0 <= height) by (nonlinear_arith)
                requires
                    width == placement@.width * self.window.cell_width,
                    height == placement@.height * self.window.cell_height,
                    0 <= placement@.width,
                    0 <= placement@.height,
                    0 <= self.window.cell_width,
                    0 <= self.window.cell_height,
            ;
        }
        let canvas = Canvas::fill(width, height, &shape);
        canvas
    }
}

/// No look is kept twice.
pub open spec fn keys_distinct(cache: Seq<(SpriteKey, Canvas)>) -> bool {
    forall|i: int, j: int| 0 <= i < j < cache.len() ==> (#[trigger] cache[i]).0@ != (#[trigger] cache[j]).0@
}

/// Every sprite kept is the arrow sprite of its key, and no look is kept
/// twice.
pub open spec fn cache_ok(w: Window, cache: Seq<(SpriteKey, Canvas)>) -> bool {
    &&& keys_distinct(cache)
    &&& forall|i: int| 0 <= i < cache.len() ==> match (#[trigger] cache[i]).0@ {
        SpriteKeyModel::Arrow { width, height, stops, shaft } => {
            &&& canvas_ok(&cache[i].1)
            &&& cache[i].1.width == width * w.cell_width
            &&& cache[i].1.height == height * w.cell_height
            &&& cache[i].1.pixels@ == arrow_pixels(
                arrow_model_of(w, width, stops, shaft),
                cache[i].1.width as int,
                cache[i].1.height as int,
            )
        },
        _ => false,
    }
}

fn same_stops(a: &Vec<i64>, b: &Vec<i64>) -> (r: bool)
    ensures
        r == (a@ == b@),
{
    if a.len() != b.len() {
        return false;
    }
    let mut i: usize = 0;
    while i < a.len()
        invariant
            a.len() == b.len(),
            i <= a.len(),
            forall|j: int| 0 <= j < i ==> a@[j] == b@[j],
        decreases a.len() - i,
    {
        if a[i] != b[i] {
            return false;
        }
        i = i + 1;
    }
    proof {
        assert(a@ =~= b@);
    }
    true
}

/// Whether two keys say the same look.
pub fn same_key(a: &SpriteKey, b: &SpriteKey) -> (r: bool)
    ensures
        r == (a@ == b@),
{
    match (a, b) {
        (
            SpriteKey::Box { width: w1, height: h1, colour: c1, fill: f1, rounded: r1 },
            SpriteKey::Box { width: w2, height: h2, colour: c2, fill: f2, rounded: r2 },
        ) => *w1 == *w2 && *h1 == *h2 && *c1 == *c2 && *f1 == *f2 && *r1 == *r2,
        (
            SpriteKey::Arrow { width: w1, height: h1, stops: s1, shaft: t1 },
            SpriteKey::Arrow { width: w2, height: h2, stops: s2, shaft: t2 },
        ) => {
            let same = *w1 == *w2 && *h1 == *h2 && *t1 == *t2 && same_stops(s1, s2);
            proof {
                if same {
                    assert(crate::layout::ints(s1@) =~= crate::layout::ints(s2@));
                }
                if crate::layout::ints(s1@) == crate::layout::ints(s2@) {
                    assert(s1@.len() == crate::layout::ints(s1@).len());
                    assert(s2@.len() == crate::layout::ints(s2@).len());
                    assert forall|j: int| 0 <= j < s1@.len() implies s1@[j] == s2@[j] by {
                        assert(crate::layout::ints(s1@)[j] == crate::layout::ints(s2@)[j]);
                        assert(crate::layout::ints(s1@)[j] == s1@[j] as int);
                        assert(crate::layout::ints(s2@)[j] == s2@[j] as int);
                    }
                    assert(s1@ =~= s2@);
                }
            }
            same
        },
        _ => false,
    }
}

impl TerminalRenderer {
    /// Where the sprite with the given look is kept, if it is.
    pub fn find(&self, key: &SpriteKey) -> (r: Option<usize>)
        ensures
            match r {
                Some(i) => i < self.cache@.len() && self.cache@[i as int].0@ == key@,
                None => forall|i: int| 0 <= i < self.cache@.len() ==> (#[trigger] self.cache@[i]).0@ != key@,
            },
    {
        let mut i: usize = 0;
        while i < self.cache.len()
            invariant
                i <= self.cache@.len(),
                forall|j: int| 0 <= j < i ==> (#[trigger] self.cache@[j]).0@ != key@,
            decreases self.cache.len() - i,
        {
            if same_key(&self.cache[i].0, key) {
                return Some(i);
            }
            i = i + 1;
        }
        None
    }

    /// Keeps a sprite, forgetting every other one first when the cache is
    /// full.
    pub fn remember(&mut self, key: SpriteKey, drawn: Canvas)
        ensures
            final(self).window == old(self).window,
            final(self).cache_limit == old(self).cache_limit,
            final(self).cache@.len() > 0,
            final(self).cache@.last() == (key, drawn),
            old(self).cache@.len() < old(self).cache_limit ==> final(self).cache@ == old(self).cache@.push((key, drawn)),
            old(self).cache@.len() >= old(self).cache_limit ==> final(self).cache@ == seq![(key, drawn)],
    {
        if self.cache.len() >= self.cache_limit {
            self.cache.clear();
        }
        self.cache.push((key, drawn));
        proof {
            if old(self).cache@.len() >= old(self).cache_limit {
                assert(self.cache@ =~= seq![(key, drawn)]);
            }
        }
    }

    /// Draws an arrow: its sprite, drawn once for each look and kept, placed
    /// where it falls on the screen.
    pub fn draw_arrow(&mut self, frame: &mut Frame, placement: &Placement)
        requires
            window_ok(old(self).window),
            cache_ok(old(self).window, old(self).cache@),
            frame_ok(old(frame)),
            old(frame).window.cell_width == old(self).window.cell_width,
            old(frame).window.cell_height == old(self).window.cell_height,
            within(placement@, FRAME_REACH as int),
            arrow_fits(old(self).window, placement@),
        ensures
            final(self).window == old(self).window,
            cache_ok(final(self).window, final(self).cache@),
            final(frame).window == old(frame).window,
            final(frame).origin == old(frame).origin,
            final(frame).characters@ == old(frame).characters@,
            match crop_spec(old(frame).window, old(frame).origin, placement@) {
                None => final(frame).images@ == old(frame).images@,
                Some(c) => {
                    &&& final(frame).images@.len() == old(frame).images@.len() + 1
                    &&& final(frame).images@.take(old(frame).images@.len() as int) == old(frame).images@
                    &&& final(frame).images@.last().col == c.col
                    &&& final(frame).images@.last().row == c.row
                    &&& match placement@.node {
                        PlacementNodeModel::Arrow { stops, shaft } => final(frame).images@.last().canvas.pixels@
                            == cropped(
                            arrow_pixels(
                                arrow_model(old(self).window, placement@, stops, shaft),
                                placement@.width * old(self).window.cell_width,
                                placement@.height * old(self).window.cell_height,
                            ),
                            placement@.width * old(self).window.cell_width,
                            c.first_x as int,
                            c.last_x as int,
                            c.first_y as int,
                            c.last_y as int,
                        ),
                        _ => false,
                    }
                },
            },
    {
        if !frame.shows(placement) {
            return;
        }
        let key = sprite_key(placement);
        let index = match self.find(&key) {
            Some(i) => i,
            None => {
                let drawn = self.outline_arrow(placement);
                proof {
                    assert(0 <= drawn.width && 0 <= drawn.height) by (nonlinear_arith)
                        requires
                            drawn.width == placement@.width * self.window.cell_width,
                            drawn.height == placement@.height * self.window.cell_height,
                            0 <= placement@.width,
                            0 <= placement@.height,
                            0 <= self.window.cell_width,
                            0 <= self.window.cell_height,
                    ;
                }
                let ghost before = self.cache@;
                self.remember(key, drawn);
                proof {
                    assert forall|i: int| 0 <= i < self.cache@.len() implies match (#[trigger] self.cache@[i]).0@ {
                        SpriteKeyModel::Arrow { width, height, stops, shaft } => {
                            &&& canvas_ok(&self.cache@[i].1)
                            &&& self.cache@[i].1.width == width * self.window.cell_width
                            &&& self.cache@[i].1.height == height * self.window.cell_height
                            &&& self.cache@[i].1.pixels@ == arrow_pixels(
                                arrow_model_of(self.window, width, stops, shaft),
                                self.cache@[i].1.width as int,
                                self.cache@[i].1.height as int,
                            )
                        },
                        _ => false,
                    } by {
                        if i < self.cache@.len() - 1 {
                            assert(self.cache@[i] == before[i]);
                        }
                    }
                    assert forall|i: int, j: int| 0 <= i < j < self.cache@.len() implies (#[trigger] self.cache@[i]).0@
                        != (#[trigger] self.cache@[j]).0@ by {
                        assert(self.cache@[i] == before[i]);
                        if j < self.cache@.len() - 1 {
                            assert(self.cache@[j] == before[j]);
                        } else {
                            assert(self.cache@[j].0@ == key@);
                        }
                    }
                }
                self.cache.len() - 1
            },
        };
        proof {
            assert(cache_ok(self.window, self.cache@));
            let entry = self.cache@[index as int];
            assert(match entry.0@ {
                SpriteKeyModel::Arrow { width, height, stops, shaft } => {
                    &&& canvas_ok(&entry.1)
                    &&& entry.1.width == width * self.window.cell_width
                    &&& entry.1.height == height * self.window.cell_height
                    &&& entry.1.pixels@ == arrow_pixels(arrow_model_of(self.window, width, stops, shaft), entry.1.width as int, entry.1.height as int)
                },
                _ => false,
            });
        }
        frame.place(&self.cache[index].1, placement);
    }

    /// Draws the caret: a block of the foreground colour over its cells.
    pub fn draw_cursor(&mut self, frame: &mut Frame, placement: &Placement)
        requires
            window_ok(old(self).window),
            frame_ok(old(frame)),
            old(frame).window.cell_width == old(self).window.cell_width,
            old(frame).window.cell_height == old(self).window.cell_height,
            within(placement@, FRAME_REACH as int),
            0 <= placement@.width <= SPRITE_REACH,
            0 <= placement@.height <= SPRITE_REACH,
            placement@.width * old(self).window.cell_width * (placement@.height * old(self).window.cell_height) <= PIXEL_LIMIT,
        ensures
            final(self).window == old(self).window,
            final(self).cache@ == old(self).cache@,
            final(frame).window == old(frame).window,
            final(frame).origin == old(frame).origin,
            final(frame).characters@ == old(frame).characters@,
            match crop_spec(old(frame).window, old(frame).origin, placement@) {
                None => final(frame).images@ == old(frame).images@,
                Some(c) => {
                    let fg = palette_spec(FOREGROUND).unwrap();
                    let w = placement@.width * old(self).window.cell_width;
                    let h = placement@.height * old(self).window.cell_height;
                    &&& final(frame).images@.len() == old(frame).images@.len() + 1
                    &&& final(frame).images@.take(old(frame).images@.len() as int) == old(frame).images@
                    &&& final(frame).images@.last().col == c.col
                    &&& final(frame).images@.last().row == c.row
                    &&& final(frame).images@.last().canvas.pixels@ == cropped(
                        Seq::new((w * h * 4) as nat, |k: int| [fg.0, fg.1, fg.2, OPAQUE]@[k % 4]),
                        w,
                        c.first_x as int,
                        c.last_x as int,
                        c.first_y as int,
                        c.last_y as int,
                    )
                },
            },
    {
        let width = self.cells_to_pixels_x(placement.width);
        let height = self.cells_to_pixels_y(placement.height);
        let (r, g, b) = colour(None);
        let shape = SolidShape { colour: [r, g, b, OPAQUE] };
        proof {
            assert(0 <= width && 0 <= height) by (nonlinear_arith)
                requires
                    width == placement@.width * self.window.cell_width,
                    height == placement@.height * self.window.cell_height,
                    0 <= placement@.width,
                    0 <= placement@.height,
                    0 <= self.window.cell_width,
                    0 <= self.window.cell_height,
            ;
        }
        let canvas = Canvas::fill(width, height, &shape);
        proof {
            let fg = palette_spec(FOREGROUND).unwrap();
            assert(canvas.pixels@ =~= Seq::new((width * height * 4) as nat, |k: int| [fg.0, fg.1, fg.2, OPAQUE]@[k % 4]));
        }
        frame.place(&canvas, placement);
    }
}

/// The escape that starts a run of the status line in its style: reset,
/// then bold, the background laid over the app's background, and the
/// foreground, each when the style has one.
pub open spec fn style_escapes(st: Style) -> Seq<char> {
    "\x1b[0m"@ + (if st.bold {
        "\x1b[1m"@
    } else {
        Seq::empty()
    }) + match st.background {
        Some(o) => background_escape(o),
        None => Seq::empty(),
    } + match st.foreground {
        Some(f) => foreground_escape(f),
        None => Seq::empty(),
    }
}

/// The runs of the status line, each cut to what still fits in `room`
/// columns; a run with nothing left to show is left out.
pub open spec fn runs(segs: Seq<(Seq<char>, Style)>, room: int) -> Seq<char>
    decreases segs.len(),
{
    if segs.len() == 0 {
        Seq::empty()
    } else {
        let n = if segs[0].0.len() <= room {
            segs[0].0.len() as int
        } else {
            room
        };
        let shown = segs[0].0.take(n);
        (if n == 0 {
            Seq::empty()
        } else {
            style_escapes(segs[0].1) + shown
        }) + runs(segs.drop_first(), room - n)
    }
}

pub open spec fn text_width(segs: Seq<(Seq<char>, Style)>) -> int
    decreases segs.len(),
{
    if segs.len() == 0 {
        0
    } else {
        segs[0].0.len() + text_width(segs.drop_first())
    }
}

/// The status line on the bottom row: the left segments, spaces to push
/// the right segments against the right edge in the last right segment's
/// style, and the right segments, cut off at the right edge.
pub open spec fn status_text(left: Seq<(Seq<char>, Style)>, right: Seq<(Seq<char>, Style)>, cols: int, rows: int) -> Seq<char> {
    "\x1b["@ + signed_decimal(rows) + ";1H"@ + runs(status_segments(left, right, cols), cols) + "\x1b[0m"@
}

/// The runs of the status line before they are cut: the left segments,
/// the blanks that fill the line up to `cols` columns, and the right ones.
pub open spec fn status_segments(left: Seq<(Seq<char>, Style)>, right: Seq<(Seq<char>, Style)>, cols: int) -> Seq<
    (Seq<char>, Style),
> {
    let width = text_width(left) + text_width(right);
    let filler_len = if cols > width {
        cols - width
    } else {
        0
    };
    let style = if right.len() > 0 {
        right.last().1
    } else {
        Style { bold: false, background: None, foreground: None }
    };
    let filler = (Seq::new(filler_len as nat, |i: int| ' '), style);
    left.push(filler) + right
}

/// The texts of some runs one after another.
pub open spec fn texts(segs: Seq<(Seq<char>, Style)>) -> Seq<char>
    decreases segs.len(),
{
    if segs.len() == 0 {
        Seq::empty()
    } else {
        segs[0].0 + texts(segs.drop_first())
    }
}

/// What the runs show once cut to `room` columns: each run's text as far as
/// it fits, as `runs` writes it after the run's style.
pub open spec fn shown(segs: Seq<(Seq<char>, Style)>, room: int) -> Seq<char>
    decreases segs.len(),
{
    if segs.len() == 0 {
        Seq::empty()
    } else {
        let n = if segs[0].0.len() <= room {
            segs[0].0.len() as int
        } else {
            room
        };
        segs[0].0.take(n) + shown(segs.drop_first(), room - n)
    }
}

proof fn lemma_texts(a: Seq<(Seq<char>, Style)>, b: Seq<(Seq<char>, Style)>)
    ensures
        texts(a + b) == texts(a) + texts(b),
        texts(a).len() == text_width(a),
        text_width(a + b) == text_width(a) + text_width(b),
    decreases a.len(),
{
    if a.len() == 0 {
        assert(a + b =~= b);
        assert(texts(a) + texts(b) =~= texts(b));
    } else {
        lemma_texts(a.drop_first(), b);
        assert((a + b).drop_first() =~= a.drop_first() + b);
        assert((a + b)[0] == a[0]);
        assert(texts(a + b) =~= texts(a) + texts(b));
    }
}

/// The runs cut to `room` columns show the first `room` characters of their
/// texts, or all of them when there are fewer.
pub proof fn law_shown_is_a_prefix(segs: Seq<(Seq<char>, Style)>, room: int)
    requires
        room >= 0,
    ensures
        shown(segs, room) == texts(segs).take(
            if room <= text_width(segs) {
                room
            } else {
                text_width(segs)
            },
        ),
    decreases segs.len(),
{
    lemma_texts(segs, Seq::empty());
    if segs.len() > 0 {
        let rest = segs.drop_first();
        let first = segs[0].0;
        lemma_texts(rest, Seq::empty());
        let n = if first.len() <= room {
            first.len() as int
        } else {
            room
        };
        law_shown_is_a_prefix(rest, room - n);
        assert(texts(segs) == first + texts(rest));
        let m = if room <= text_width(segs) {
            room
        } else {
            text_width(segs)
        };
        if first.len() <= room {
            assert((first + texts(rest)).take(m) =~= first + texts(rest).take(m - first.len()));
        } else {
            assert(texts(rest).take(0) =~= Seq::<char>::empty());
            assert((first + texts(rest)).take(m) =~= first.take(room) + Seq::<char>::empty());
        }
    }
}

/// The status line shows exactly `cols` characters: the left texts, blanks
/// up to the right texts, and the right texts, cut off at the right edge.
pub proof fn law_status_line_fills_the_width(
    left: Seq<(Seq<char>, Style)>,
    right: Seq<(Seq<char>, Style)>,
    cols: int,
    rows: int,
)
    requires
        cols >= 0,
    ensures
        shown(status_segments(left, right, cols), cols).len() == cols,
        shown(status_segments(left, right, cols), cols) == texts(status_segments(left, right, cols)).take(cols),
        status_text(left, right, cols, rows) == "\x1b["@ + signed_decimal(rows) + ";1H"@ + runs(
            status_segments(left, right, cols),
            cols,
        ) + "\x1b[0m"@,
{
    let segs = status_segments(left, right, cols);
    let width = text_width(left) + text_width(right);
    let filler_len = if cols > width {
        cols - width
    } else {
        0
    };
    let filler = segs[left.len() as int];
    let one = seq![filler];
    assert(left.push(filler) =~= left + one);
    assert(segs =~= left + one + right);
    lemma_texts(left, one);
    lemma_texts(left + one, right);
    lemma_texts(one, Seq::empty());
    assert(one.drop_first() =~= Seq::<(Seq<char>, Style)>::empty());
    assert(text_width(one) == filler_len);
    law_shown_is_a_prefix(segs, cols);
    lemma_texts(segs, Seq::empty());
}

pub open spec fn background_escape(o: (u8, u8, u8, u8)) -> Seq<char> {
    let back = palette_spec(BACKGROUND).unwrap();
    "\x1b[48;2;"@ + signed_decimal(blend_spec(o.0 as int, back.0 as int, o.3 as int)) + ";"@
        + signed_decimal(blend_spec(o.1 as int, back.1 as int, o.3 as int)) + ";"@ + signed_decimal(
        blend_spec(o.2 as int, back.2 as int, o.3 as int),
    ) + "m"@
}

pub open spec fn foreground_escape(f: (u8, u8, u8)) -> Seq<char> {
    "\x1b[38;2;"@ + signed_decimal(f.0 as int) + ";"@ + signed_decimal(f.1 as int) + ";"@
        + signed_decimal(f.2 as int) + "m"@
}

fn push_background(out: &mut String, o: (u8, u8, u8, u8))
    ensures
        final(out)@ == old(out)@ + background_escape(o),
{
    let back = match palette(BACKGROUND) {
        Some(c) => c,
        None => (0, 0, 0),
    };
    let (r, g, b) = composite(o, back);
    push_str(out, "\x1b[48;2;");
    push_signed(out, r as i64);
    push_str(out, ";");
    push_signed(out, g as i64);
    push_str(out, ";");
    push_signed(out, b as i64);
    push_str(out, "m");
    proof {
        assert(final(out)@ =~= old(out)@ + background_escape(o));
    }
}

fn push_foreground(out: &mut String, f: (u8, u8, u8))
    ensures
        final(out)@ == old(out)@ + foreground_escape(f),
{
    push_str(out, "\x1b[38;2;");
    push_signed(out, f.0 as i64);
    push_str(out, ";");
    push_signed(out, f.1 as i64);
    push_str(out, ";");
    push_signed(out, f.2 as i64);
    push_str(out, "m");
    proof {
        assert(final(out)@ =~= old(out)@ + foreground_escape(f));
    }
}

fn push_style(out: &mut String, st: Style)
    ensures
        final(out)@ == old(out)@ + style_escapes(st),
{
    let ghost start = out@;
    push_str(out, "\x1b[0m");
    if st.bold {
        push_str(out, "\x1b[1m");
    }
    let ghost a = out@;
    match st.background {
        Some(o) => push_background(out, o),
        None => {},
    }
    let ghost b = out@;
    match st.foreground {
        Some(f) => push_foreground(out, f),
        None => {},
    }
    proof {
        let bold_part = if st.bold {
            "\x1b[1m"@
        } else {
            Seq::<char>::empty()
        };
        let back_part = match st.background {
            Some(o) => background_escape(o),
            None => Seq::<char>::empty(),
        };
        let fore_part = match st.foreground {
            Some(f) => foreground_escape(f),
            None => Seq::<char>::empty(),
        };
        assert(a =~= start + "\x1b[0m"@ + bold_part);
        assert(b =~= a + back_part);
        assert(out@ =~= b + fore_part);
        assert(style_escapes(st) =~= "\x1b[0m"@ + bold_part + back_part + fore_part);
        assert(out@ =~= start + style_escapes(st));
    }
}

/// Writes one run of the status line, cut to the room left.
fn push_run(out: &mut String, text: &Vec<char>, st: Style, room: usize) -> (used: usize)
    ensures
        used <= room,
        used == (if text@.len() <= room {
            text@.len() as int
        } else {
            room as int
        }),
        final(out)@ == old(out)@ + (if used == 0 {
            Seq::empty()
        } else {
            style_escapes(st) + text@.take(used as int)
        }),
{
    let n = if text.len() <= room {
        text.len()
    } else {
        room
    };
    if n == 0 {
        proof {
            assert(final(out)@ =~= old(out)@ + Seq::<char>::empty());
        }
        return 0;
    }
    push_style(out, st);
    let mut i: usize = 0;
    let ghost start = out@;
    while i < n
        invariant
            i <= n,
            n <= text@.len(),
            out@ == start + text@.take(i as int),
        decreases n - i,
    {
        push_char(out, text[i]);
        i = i + 1;
        proof {
            assert(out@ =~= start + text@.take(i as int));
        }
    }
    proof {
        assert(final(out)@ =~= old(out)@ + (style_escapes(st) + text@.take(n as int)));
    }
    n
}

/// The escapes that draw the status line on the last of `rows` rows,
/// `cols` columns wide.
pub fn status_line_escapes(line: &StatusLine, cols: i64, rows: i64) -> (r: String)
    requires
        0 <= cols <= SCREEN_REACH,
        text_width(segments_view(line.left@)) + text_width(segments_view(line.right@)) <= PIXEL_LIMIT,
        text_width(segments_view(line.left@)) + text_width(segments_view(line.right@)) <= usize::MAX,
    ensures
        r@ == status_text(segments_view(line.left@), segments_view(line.right@), cols as int, rows as int),
{
    let ghost left = segments_view(line.left@);
    let ghost right = segments_view(line.right@);
    let mut width: usize = 0;
    let mut i: usize = 0;
    proof {
        assert(left.skip(0) =~= left);
    }
    while i < line.left.len()
        invariant
            i <= line.left@.len(),
            left == segments_view(line.left@),
            text_width(left) + text_width(right) <= PIXEL_LIMIT,
            text_width(left) + text_width(right) <= usize::MAX,
            width + text_width(left.skip(i as int)) == text_width(left),
        decreases line.left.len() - i,
    {
        proof {
            assert(left.skip(i as int).drop_first() =~= left.skip(i + 1));
            assert(left.skip(i as int)[0] == left[i as int]);
            lemma_width_nonneg(left.skip(i + 1));
            lemma_width_nonneg(right);
        }
        width = width + line.left[i].text.unicode_len();
        i = i + 1;
    }
    let mut j: usize = 0;
    proof {
        assert(right.skip(0) =~= right);
    }
    while j < line.right.len()
        invariant
            j <= line.right@.len(),
            left == segments_view(line.left@),
            right == segments_view(line.right@),
            text_width(left) + text_width(right) <= PIXEL_LIMIT,
            text_width(left) + text_width(right) <= usize::MAX,
            width + text_width(right.skip(j as int)) == text_width(left) + text_width(right),
        decreases line.right.len() - j,
    {
        proof {
            assert(right.skip(j as int).drop_first() =~= right.skip(j + 1));
            assert(right.skip(j as int)[0] == right[j as int]);
            lemma_width_nonneg(right.skip(j + 1));
        }
        width = width + line.right[j].text.unicode_len();
        j = j + 1;
    }
    proof {
        assert(left.skip(i as int) =~= Seq::<(Seq<char>, Style)>::empty());
        assert(right.skip(j as int) =~= Seq::<(Seq<char>, Style)>::empty());
    }
    let filler_len: usize = if (cols as usize) > width {
        cols as usize - width
    } else {
        0
    };
    let style = if line.right.len() > 0 {
        line.right[line.right.len() - 1].style
    } else {
        Style { bold: false, background: None, foreground: None }
    };
    let mut filler: Vec<char> = Vec::new();
    let mut k: usize = 0;
    while k < filler_len
        invariant
            k <= filler_len,
            filler@ == Seq::new(k as nat, |x: int| ' '),
        decreases filler_len - k,
    {
        filler.push(' ');
        k = k + 1;
        proof {
            assert(filler@ =~= Seq::new(k as nat, |x: int| ' '));
        }
    }
    let ghost segs = left.push((filler@, style)) + right;
    let mut out = String::new();
    push_str(&mut out, "\x1b[");
    push_signed(&mut out, rows);
    push_str(&mut out, ";1H");
    let ghost head = out@;
    let mut room: usize = cols as usize;
    let mut i: usize = 0;
    proof {
        assert(segs.skip(0) =~= segs);
    }
    while i < line.left.len()
        invariant
            i <= line.left@.len(),
            left == segments_view(line.left@),
            segs == left.push((filler@, style)) + right,
            out@ + runs(segs.skip(i as int), room as int) == head + runs(segs, cols as int),
        decreases line.left.len() - i,
    {
        let text = chars_of(line.left[i].text.as_str());
        let used = push_run(&mut out, &text, line.left[i].style, room);
        proof {
            assert(segs.skip(i as int)[0] == left[i as int]);
            assert(segs.skip(i as int).drop_first() =~= segs.skip(i + 1));
        }
        room = room - used;
        i = i + 1;
    }
    let used = push_run(&mut out, &filler, style, room);
    proof {
        assert(segs.skip(i as int)[0] == (filler@, style));
        assert(segs.skip(i as int).drop_first() =~= segs.skip(i + 1));
    }
    room = room - used;
    let mut j: usize = 0;
    while j < line.right.len()
        invariant
            j <= line.right@.len(),
            right == segments_view(line.right@),
            segs == left.push((filler@, style)) + right,
            left.len() == line.left@.len(),
            out@ + runs(segs.skip(left.len() + 1 + j), room as int) == head + runs(segs, cols as int),
        decreases line.right.len() - j,
    {
        let text = chars_of(line.right[j].text.as_str());
        let used = push_run(&mut out, &text, line.right[j].style, room);
        proof {
            assert(segs.skip(left.len() + 1 + j)[0] == right[j as int]);
            assert(segs.skip(left.len() + 1 + j).drop_first() =~= segs.skip(left.len() + 1 + j + 1));
        }
        room = room - used;
        j = j + 1;
    }
    proof {
        assert(segs.skip(left.len() + 1 + j) =~= Seq::<(Seq<char>, Style)>::empty());
        assert(out@ =~= head + runs(segs, cols as int));
    }
    push_str(&mut out, "\x1b[0m");
    proof {
        assert(out@ =~= status_text(left, right, cols as int, rows as int));
    }
    out
}

proof fn lemma_width_nonneg(segs: Seq<(Seq<char>, Style)>)
    ensures
        text_width(segs) >= 0,
    decreases segs.len(),
{
    if segs.len() > 0 {
        lemma_width_nonneg(segs.drop_first());
    }
}

} // verus!
