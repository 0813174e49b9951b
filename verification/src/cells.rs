//! The earlier terminal look: cells coloured with the sixteen-colour escape
//! codes, from a palette of five, and sprites stroked onto pixel buffers.
use vstd::prelude::*;
use vstd::arithmetic::div_mod::lemma_fundamental_div_mod;
use crate::canvas::{lemma_index, lemma_area};
use crate::text::{push_str, push_char, push_signed, signed_decimal};
use crate::layout::{Placement, PlacementModel, PlacementNode, PlacementNodeModel};

verus! {

/// The colour or fill of a plain box.
pub const PLAIN: i64 = -1;

/// An empty cell.
pub const BLANK: char = ' ';

/// The caret.
pub const CURSOR: char = '\u{2588}';

/// Thickness of an arrow's strokes, in pixels.
pub const ARROW_STROKE: i64 = 4;

/// Ends a coloured cell.
pub const RESET: &'static str = "\x1b[0m";

/// Radius of a rounded box's corners, in pixels.
pub const ROUNDED_RADIUS: i64 = 20;

/// Thickness of a box's border, in pixels.
pub const BORDER: i64 = 4;

pub const OPAQUE: u8 = 255;
pub const FILL_ALPHA: u16 = 77;
pub const TRANSPARENT: (u8, u8, u8, u8) = (0, 0, 0, 0);

/// What plain boxes are drawn in.
pub const PLAIN_COLOUR: (u8, u8, u8) = (128, 128, 128);

/// The five colours: amber, orange, pink, violet, blue.
pub const PALETTE: [(u8, u8, u8); 5] = [(255, 190, 11), (251, 86, 7), (255, 0, 110), (131, 56, 236), (58, 134, 255)];

pub open spec fn palette_entry(i: int) -> (u8, u8, u8) {
    if i == 0 {
        (255, 190, 11)
    } else if i == 1 {
        (251, 86, 7)
    } else if i == 2 {
        (255, 0, 110)
    } else if i == 3 {
        (131, 56, 236)
    } else {
        (58, 134, 255)
    }
}

/// A colour is plain or one of the five.
pub open spec fn index_ok(c: i64) -> bool {
    c == PLAIN || 0 <= c < 5
}

pub open spec fn colour_spec(c: i64) -> (u8, u8, u8) {
    if c == PLAIN {
        PLAIN_COLOUR
    } else {
        palette_entry(c as int)
    }
}

/// The colour a box is drawn in.
pub fn colour(c: i64) -> (r: (u8, u8, u8))
    requires
        index_ok(c),
    ensures
        r == colour_spec(c),
{
    if c == PLAIN {
        PLAIN_COLOUR
    } else {
        let p = PALETTE;
        p[c as usize]
    }
}

/// The nearest whole number to `channel * 77 / 255`.
pub open spec fn faded(channel: int) -> int {
    (2 * channel * 77 + 255) / 510
}

pub open spec fn fill_colour_spec(f: i64) -> (u8, u8, u8, u8) {
    if f == PLAIN {
        TRANSPARENT
    } else {
        let (r, g, b) = palette_entry(f as int);
        (faded(r as int) as u8, faded(g as int) as u8, faded(b as int) as u8, OPAQUE)
    }
}

fn fade(channel: u8) -> (r: u8)
    ensures
        r == faded(channel as int),
{
    let v: u32 = channel as u32;
    proof {
        assert((2 * v * 77 + 255) / 510 <= 77) by (nonlinear_arith)
            requires
                v <= 255,
        ;
    }
    ((2 * v * 77 + 255) / 510) as u8
}

/// A box's fill: its colour at the fill alpha over black, made opaque; a
/// plain fill shows nothing.
pub fn fill_colour(f: i64) -> (r: (u8, u8, u8, u8))
    requires
        index_ok(f),
    ensures
        r == fill_colour_spec(f),
{
    if f == PLAIN {
        TRANSPARENT
    } else {
        let p = PALETTE;
        let (r, g, b) = p[f as usize];
        (fade(r), fade(g), fade(b), OPAQUE)
    }
}

/// A cell: the bare character when it is plain, else the character between
/// the foreground and background codes and a reset.
pub open spec fn cell_spec(character: char, c: i64, f: i64) -> Seq<char> {
    if c == PLAIN && f == PLAIN {
        seq![character]
    } else {
        let codes = if c != PLAIN && f != PLAIN {
            signed_decimal(30 + c) + ";"@ + signed_decimal(40 + f)
        } else if c != PLAIN {
            signed_decimal(30 + c)
        } else {
            signed_decimal(40 + f)
        };
        "\x1b["@ + codes + "m"@ + seq![character] + RESET@
    }
}

pub fn cell(character: char, c: i64, f: i64) -> (r: String)
    requires
        c <= i64::MAX - 40,
        f <= i64::MAX - 40,
    ensures
        r@ == cell_spec(character, c, f),
{
    let mut s = String::new();
    if c == PLAIN && f == PLAIN {
        push_char(&mut s, character);
        proof {
            assert(s@ =~= seq![character]);
        }
        return s;
    }
    push_str(&mut s, "\x1b[");
    if c != PLAIN {
        push_signed(&mut s, 30 + c);
    }
    if c != PLAIN && f != PLAIN {
        push_str(&mut s, ";");
    }
    if f != PLAIN {
        push_signed(&mut s, 40 + f);
    }
    push_str(&mut s, "m");
    push_char(&mut s, character);
    push_str(&mut s, RESET);
    proof {
        assert(s@ =~= cell_spec(character, c, f));
    }
    s
}

/// How far from zero a canvas's edges may reach.
pub const EDGE_REACH: i64 = 0x2000;

/// A clipped, transparent field of pixels that lines are stroked onto in
/// one ink: the pixels from `first_x` to `last_x` and `first_y` to `last_y`.
pub struct Canvas {
    pub first_x: i64,
    pub last_x: i64,
    pub first_y: i64,
    pub last_y: i64,
    pub ink: [u8; 4],
    pub span: i64,
    pub buffer: Vec<u8>,
}

impl Canvas {
    pub open spec fn wf(&self) -> bool {
        &&& -EDGE_REACH <= self.first_x <= self.last_x <= EDGE_REACH
        &&& -EDGE_REACH <= self.first_y <= self.last_y <= EDGE_REACH
        &&& self.span == self.last_x - self.first_x
        &&& self.buffer@.len() == self.span * (self.last_y - self.first_y) * 4
    }

    /// The column of the pixel that byte `k` belongs to.
    pub open spec fn kx(&self, k: int) -> int {
        self.first_x + (k / 4) % (self.span as int)
    }

    /// The row of the pixel that byte `k` belongs to.
    pub open spec fn ky(&self, k: int) -> int {
        self.first_y + (k / 4) / (self.span as int)
    }

    /// The buffer with the ink on every pixel that `painted` holds of.
    pub open spec fn inked(&self, before: Seq<u8>, painted: spec_fn(int, int) -> bool) -> Seq<u8> {
        Seq::new(
            before.len(),
            |k: int|
                if painted(self.kx(k), self.ky(k)) {
                    self.ink@[k % 4]
                } else {
                    before[k]
                },
        )
    }
}

/// The first of `width` whole numbers centred on `c`, the odd one after it.
pub open spec fn span_start(c: int, width: int) -> int {
    c - (width - 1) / 2
}

pub open spec fn in_span(v: int, c: int, width: int) -> bool {
    span_start(c, width) <= v < span_start(c, width) + width
}

fn start_of(c: i64, width: i64) -> (r: i64)
    requires
        -4 * EDGE_REACH <= c <= 4 * EDGE_REACH,
        -4 * EDGE_REACH <= width <= 4 * EDGE_REACH,
    ensures
        r == span_start(c as int, width as int),
{
    let half = match (width - 1).checked_div_euclid(2) {
        Some(h) => h,
        None => 0,
    };
    c - half
}

/// The `width` whole numbers centred on `c`.
pub fn centered_span(c: i64, width: i64) -> (r: std::ops::Range<i64>)
    requires
        -4 * EDGE_REACH <= c <= 4 * EDGE_REACH,
        -4 * EDGE_REACH <= width <= 4 * EDGE_REACH,
    ensures
        r.start == span_start(c as int, width as int),
        r.end == span_start(c as int, width as int) + width,
{
    let start = start_of(c, width);
    start..(start + width)
}

proof fn lemma_pixel_of(first_x: int, first_y: int, span: int, rows: int, k: int)
    requires
        span > 0,
        0 <= k < span * rows * 4,
    ensures
        first_x <= first_x + (k / 4) % span < first_x + span,
        first_y <= first_y + (k / 4) / span < first_y + rows,
        k == (((k / 4) / span) * span + (k / 4) % span) * 4 + k % 4,
{
    lemma_fundamental_div_mod(k, 4);
    lemma_fundamental_div_mod(k / 4, span);
    let q = k / 4;
    let r = k % 4;
    let a = q / span;
    let b = q % span;
    assert(k == (a * span + b) * 4 + r) by (nonlinear_arith)
        requires
            k == 4 * q + r,
            q == span * a + b,
    ;
    assert(0 <= k / 4 < span * rows) by (nonlinear_arith)
        requires
            0 <= k < span * rows * 4,
    ;
    assert((k / 4) / span < rows) by (nonlinear_arith)
        requires
            0 <= k / 4 < span * rows,
            span > 0,
    ;
}

impl Canvas {
    /// A transparent canvas over the given pixels.
    pub fn new(first_x: i64, last_x: i64, first_y: i64, last_y: i64, ink: [u8; 4]) -> (r: Self)
        requires
            -EDGE_REACH <= first_x <= last_x <= EDGE_REACH,
            -EDGE_REACH <= first_y <= last_y <= EDGE_REACH,
        ensures
            r.wf(),
            r.first_x == first_x,
            r.last_x == last_x,
            r.first_y == first_y,
            r.last_y == last_y,
            r.ink == ink,
            r.buffer@ == Seq::new(((last_x - first_x) * (last_y - first_y) * 4) as nat, |k: int| 0u8),
    {
        let span = last_x - first_x;
        proof {
            assert(0 <= span * (last_y - first_y) * 4 <= 4 * (2 * EDGE_REACH) * (2 * EDGE_REACH)) by (nonlinear_arith)
                requires
                    0 <= span <= 2 * EDGE_REACH,
                    0 <= last_y - first_y <= 2 * EDGE_REACH,
            ;
        }
        let n: usize = (span * (last_y - first_y) * 4) as usize;
        let mut buffer: Vec<u8> = Vec::new();
        let mut i: usize = 0;
        while i < n
            invariant
                i <= n,
                buffer@ == Seq::new(i as nat, |k: int| 0u8),
            decreases n - i,
        {
            buffer.push(0);
            i = i + 1;
            proof {
                assert(buffer@ =~= Seq::new(i as nat, |k: int| 0u8));
            }
        }
        Canvas { first_x, last_x, first_y, last_y, ink, span, buffer }
    }

    /// Inks one pixel, when it lies on the canvas.
    fn paint(&mut self, px: i64, py: i64)
        requires
            old(self).wf(),
            old(self).first_x <= px < old(self).last_x,
            old(self).first_y <= py < old(self).last_y,
        ensures
            final(self).wf(),
            final(self).first_x == old(self).first_x,
            final(self).last_x == old(self).last_x,
            final(self).first_y == old(self).first_y,
            final(self).last_y == old(self).last_y,
            final(self).span == old(self).span,
            final(self).ink == old(self).ink,
            final(self).buffer@ == old(self).inked(old(self).buffer@, |x: int, y: int| x == px && y == py),
    {
        let ghost before = self.buffer@;
        let ghost rows = self.last_y - self.first_y;
        proof {
            lemma_area(self.span as int, rows, py - self.first_y, px - self.first_x);
            assert(0 <= (py - self.first_y) * self.span <= 4 * EDGE_REACH * EDGE_REACH) by (nonlinear_arith)
                requires
                    0 <= py - self.first_y <= 2 * EDGE_REACH,
                    0 <= self.span <= 2 * EDGE_REACH,
            ;
        }
        let start: usize = (((py - self.first_y) * self.span + (px - self.first_x)) * 4) as usize;
        let mut c: usize = 0;
        let ghost fx = self.first_x;
        let ghost lx = self.last_x;
        let ghost fy = self.first_y;
        let ghost ly = self.last_y;
        let ghost sp = self.span;
        let ghost ink = self.ink;
        while c < 4
            invariant
                c <= 4,
                self.first_x == fx,
                self.last_x == lx,
                self.first_y == fy,
                self.last_y == ly,
                self.span == sp,
                self.ink == ink,
                sp == lx - fx,
                fx <= px < lx,
                fy <= py < ly,
                rows == ly - fy,
                before.len() == sp * rows * 4,
                start == ((py - self.first_y) * self.span + (px - self.first_x)) * 4,
                start + 4 <= before.len(),
                self.buffer@.len() == before.len(),
                forall|k: int| 0 <= k < before.len() ==> #[trigger] self.buffer@[k] == if start <= k < start + c {
                    self.ink@[k - start]
                } else {
                    before[k]
                },
            decreases 4 - c,
        {
            self.buffer.set(start + c, self.ink[c]);
            c = c + 1;
        }
        proof {
            let spec_pred = |x: int, y: int| x == px && y == py;
            assert forall|k: int| 0 <= k < before.len() implies #[trigger] self.buffer@[k] == self.inked(before, spec_pred)[k] by {
                lemma_pixel_of(self.first_x as int, self.first_y as int, self.span as int, rows, k);
                if start <= k < start + 4 {
                    lemma_index(self.span as int, px - self.first_x, py - self.first_y, k - start, k);
                    assert(k % 4 == k - start);
                } else {
                    if self.kx(k) == px && self.ky(k) == py {
                        assert(k / 4 == (py - self.first_y) * self.span + (px - self.first_x));
                        assert(false);
                    }
                }
            }
            assert(self.buffer@ =~= self.inked(before, spec_pred));
        }
    }
}

/// Inking one more pixel inks what was inked and that pixel; a pixel off
/// the canvas inks nothing.
proof fn lemma_inked_step(c: &Canvas, orig: Seq<u8>, p: spec_fn(int, int) -> bool, px: int, py: int)
    requires
        c.wf(),
        orig.len() == c.buffer@.len(),
    ensures
        c.inked(c.inked(orig, p), |x: int, y: int| x == px && y == py) == c.inked(
            orig,
            |x: int, y: int| p(x, y) || (x == px && y == py),
        ),
        !(c.first_x <= px < c.last_x && c.first_y <= py < c.last_y) ==> c.inked(orig, p) == c.inked(
            orig,
            |x: int, y: int| p(x, y) || (x == px && y == py),
        ),
{
    let q = |x: int, y: int| p(x, y) || (x == px && y == py);
    assert(c.inked(c.inked(orig, p), |x: int, y: int| x == px && y == py) =~= c.inked(orig, q));
    if !(c.first_x <= px < c.last_x && c.first_y <= py < c.last_y) {
        assert forall|k: int| 0 <= k < orig.len() implies #[trigger] c.inked(orig, p)[k] == c.inked(orig, q)[k] by {
            if c.span > 0 {
                lemma_pixel_of(c.first_x as int, c.first_y as int, c.span as int, c.last_y - c.first_y, k);
            } else {
                assert(c.span * (c.last_y - c.first_y) * 4 == 0) by (nonlinear_arith)
                    requires
                        c.span == 0,
                ;
            }
        }
        assert(c.inked(orig, p) =~= c.inked(orig, q));
    }
}

proof fn lemma_inked_same(c: &Canvas, orig: Seq<u8>, p: spec_fn(int, int) -> bool, q: spec_fn(int, int) -> bool)
    requires
        forall|x: int, y: int| #[trigger] p(x, y) == q(x, y),
    ensures
        c.inked(orig, p) == c.inked(orig, q),
{
    assert(c.inked(orig, p) =~= c.inked(orig, q));
}

impl Canvas {
    /// Stamps a `width` by `width` square of ink centred on (`x`, `y`),
    /// clipped to the canvas.
    pub fn point(&mut self, x: i64, y: i64, width: i64)
        requires
            old(self).wf(),
            -2 * EDGE_REACH <= x <= 2 * EDGE_REACH,
            -2 * EDGE_REACH <= y <= 2 * EDGE_REACH,
            -EDGE_REACH <= width <= EDGE_REACH,
        ensures
            final(self).wf(),
            final(self).first_x == old(self).first_x,
            final(self).last_x == old(self).last_x,
            final(self).first_y == old(self).first_y,
            final(self).last_y == old(self).last_y,
            final(self).ink == old(self).ink,
            final(self).buffer@ == old(self).inked(
                old(self).buffer@,
                |px: int, py: int| in_span(px, x as int, width as int) && in_span(py, y as int, width as int),
            ),
    {
        let ghost orig = self.buffer@;
        let xs = centered_span(x, width);
        let ys = centered_span(y, width);
        let mut px = xs.start;
        proof {
            lemma_inked_same(self, orig, |a: int, b: int| false, |a: int, b: int| in_span(a, x as int, width as int) && in_span(b, y as int, width as int) && (a < px || (a == px && b < ys.start)));
            assert(self.inked(orig, |a: int, b: int| false) =~= orig);
        }
        while px < xs.end
            invariant
                self.wf(),
                xs.start == span_start(x as int, width as int),
                xs.end == xs.start + width,
                ys.start == span_start(y as int, width as int),
                ys.end == ys.start + width,
                xs.start <= px,
                px <= xs.end || xs.end < xs.start,
                -2 * EDGE_REACH <= x <= 2 * EDGE_REACH,
                -2 * EDGE_REACH <= y <= 2 * EDGE_REACH,
                -EDGE_REACH <= width <= EDGE_REACH,
                orig.len() == self.buffer@.len(),
                self.buffer@ == self.inked(orig, |a: int, b: int| in_span(a, x as int, width as int) && in_span(b, y as int, width as int) && a < px),
                self.first_x == old(self).first_x,
                self.last_x == old(self).last_x,
                self.first_y == old(self).first_y,
                self.last_y == old(self).last_y,
                self.span == old(self).span,
                self.ink == old(self).ink,
            decreases xs.end - px,
        {
            let mut py = ys.start;
            proof {
                lemma_inked_same(self, orig, |a: int, b: int| in_span(a, x as int, width as int) && in_span(b, y as int, width as int) && a < px, |a: int, b: int| in_span(a, x as int, width as int) && in_span(b, y as int, width as int) && (a < px || (a == px && b < py)));
            }
            while py < ys.end
                invariant
                    self.wf(),
                    xs.start == span_start(x as int, width as int),
                    xs.end == xs.start + width,
                    ys.start == span_start(y as int, width as int),
                    ys.end == ys.start + width,
                    xs.start <= px < xs.end,
                    ys.start <= py <= ys.end,
                    -2 * EDGE_REACH <= x <= 2 * EDGE_REACH,
                    -2 * EDGE_REACH <= y <= 2 * EDGE_REACH,
                    -EDGE_REACH <= width <= EDGE_REACH,
                    orig.len() == self.buffer@.len(),
                    self.buffer@ == self.inked(orig, |a: int, b: int| in_span(a, x as int, width as int) && in_span(b, y as int, width as int) && (a < px || (a == px && b < py))),
                    self.first_x == old(self).first_x,
                    self.last_x == old(self).last_x,
                    self.first_y == old(self).first_y,
                    self.last_y == old(self).last_y,
                    self.span == old(self).span,
                    self.ink == old(self).ink,
                decreases ys.end - py,
            {
                let ghost p = |a: int, b: int| in_span(a, x as int, width as int) && in_span(b, y as int, width as int) && (a < px || (a == px && b < py));
                let ghost before = self.buffer@;
                proof {
                    lemma_inked_step(self, orig, p, px as int, py as int);
                }
                if self.first_x <= px && px < self.last_x && self.first_y <= py && py < self.last_y {
                    self.paint(px, py);
                }
                proof {
                    lemma_inked_same(self, orig, |a: int, b: int| p(a, b) || (a == px && b == py), |a: int, b: int| in_span(a, x as int, width as int) && in_span(b, y as int, width as int) && (a < px || (a == px && b < py + 1)));
                }
                py = py + 1;
            }
            proof {
                lemma_inked_same(self, orig, |a: int, b: int| in_span(a, x as int, width as int) && in_span(b, y as int, width as int) && (a < px || (a == px && b < py)), |a: int, b: int| in_span(a, x as int, width as int) && in_span(b, y as int, width as int) && a < px + 1);
            }
            px = px + 1;
        }
        proof {
            lemma_inked_same(self, orig, |a: int, b: int| in_span(a, x as int, width as int) && in_span(b, y as int, width as int) && a < px, |a: int, b: int| in_span(a, x as int, width as int) && in_span(b, y as int, width as int));
        }
    }
}

/// Two ways of choosing pixels that agree on the canvas ink the same.
proof fn lemma_inked_on_canvas(c: &Canvas, orig: Seq<u8>, p: spec_fn(int, int) -> bool, q: spec_fn(int, int) -> bool)
    requires
        c.wf(),
        orig.len() == c.buffer@.len(),
        forall|x: int, y: int| c.first_x <= x < c.last_x && c.first_y <= y < c.last_y ==> #[trigger] p(x, y) == q(x, y),
    ensures
        c.inked(orig, p) == c.inked(orig, q),
{
    assert forall|k: int| 0 <= k < orig.len() implies #[trigger] c.inked(orig, p)[k] == c.inked(orig, q)[k] by {
        if c.span > 0 {
            lemma_pixel_of(c.first_x as int, c.first_y as int, c.span as int, c.last_y - c.first_y, k);
            assert(p(c.kx(k), c.ky(k)) == q(c.kx(k), c.ky(k)));
        } else {
            assert(c.span * (c.last_y - c.first_y) * 4 == 0) by (nonlinear_arith)
                requires
                    c.span == 0,
            ;
        }
    }
    assert(c.inked(orig, p) =~= c.inked(orig, q));
}

impl Canvas {
    /// Strokes a line `width` pixels thick along row `y`, from column `x0`
    /// to column `x1`, clipped to the canvas.
    pub fn horizontal(&mut self, y: i64, x0: i64, x1: i64, width: i64)
        requires
            old(self).wf(),
            -2 * EDGE_REACH <= y <= 2 * EDGE_REACH,
            -2 * EDGE_REACH <= x0 <= 2 * EDGE_REACH,
            -2 * EDGE_REACH <= x1 <= 2 * EDGE_REACH,
            -EDGE_REACH <= width <= EDGE_REACH,
        ensures
            final(self).wf(),
            final(self).first_x == old(self).first_x,
            final(self).last_x == old(self).last_x,
            final(self).first_y == old(self).first_y,
            final(self).last_y == old(self).last_y,
            final(self).ink == old(self).ink,
            final(self).buffer@ == old(self).inked(
                old(self).buffer@,
                |px: int, py: int| x0 <= px <= x1 && in_span(py, y as int, width as int),
            ),
    {
        let ghost orig = self.buffer@;
        let ghost goal = |px: int, py: int| x0 <= px <= x1 && in_span(py, y as int, width as int);
        let start_x = if x0 > self.first_x {
            x0
        } else {
            self.first_x
        };
        let stop_x = if x1 + 1 < self.last_x {
            x1 + 1
        } else {
            self.last_x
        };
        proof {
            assert(self.inked(orig, |a: int, b: int| false) =~= orig);
        }
        if start_x >= stop_x {
            proof {
                lemma_inked_on_canvas(self, orig, |a: int, b: int| false, goal);
            }
            return;
        }
        let ys = centered_span(y, width);
        let mut py = ys.start;
        proof {
            lemma_inked_on_canvas(self, orig, |a: int, b: int| false, |a: int, b: int| start_x <= a < stop_x && in_span(b, y as int, width as int) && b < py);
        }
        while py < ys.end
            invariant
                self.wf(),
                ys.start == span_start(y as int, width as int),
                ys.end == ys.start + width,
                ys.start <= py,
                py <= ys.end || ys.end < ys.start,
                -EDGE_REACH <= width <= EDGE_REACH,
                -2 * EDGE_REACH <= y <= 2 * EDGE_REACH,
                start_x < stop_x,
                start_x >= self.first_x,
                stop_x <= self.last_x,
                start_x == (if x0 > self.first_x { x0 } else { self.first_x }),
                stop_x == (if x1 + 1 < self.last_x { x1 + 1 } else { self.last_x as int }),
                orig.len() == self.buffer@.len(),
                self.buffer@ == self.inked(orig, |a: int, b: int| start_x <= a < stop_x && in_span(b, y as int, width as int) && b < py),
                self.first_x == old(self).first_x,
                self.last_x == old(self).last_x,
                self.first_y == old(self).first_y,
                self.last_y == old(self).last_y,
                self.span == old(self).span,
                self.ink == old(self).ink,
            decreases ys.end - py,
        {
            if self.first_y <= py && py < self.last_y {
                let mut px = start_x;
                while px < stop_x
                    invariant
                        self.wf(),
                        ys.start == span_start(y as int, width as int),
                        ys.end == ys.start + width,
                        ys.start <= py < ys.end,
                        self.first_y <= py < self.last_y,
                        start_x <= px <= stop_x,
                        start_x >= self.first_x,
                        stop_x <= self.last_x,
                        orig.len() == self.buffer@.len(),
                        self.buffer@ == self.inked(orig, |a: int, b: int| start_x <= a < stop_x && in_span(b, y as int, width as int) && (b < py || (b == py && a < px))),
                        self.first_x == old(self).first_x,
                        self.last_x == old(self).last_x,
                        self.first_y == old(self).first_y,
                        self.last_y == old(self).last_y,
                        self.span == old(self).span,
                        self.ink == old(self).ink,
                    decreases stop_x - px,
                {
                    let ghost p = |a: int, b: int| start_x <= a < stop_x && in_span(b, y as int, width as int) && (b < py || (b == py && a < px));
                    proof {
                        lemma_inked_step(self, orig, p, px as int, py as int);
                    }
                    self.paint(px, py);
                    proof {
                        lemma_inked_same(self, orig, |a: int, b: int| p(a, b) || (a == px && b == py), |a: int, b: int| start_x <= a < stop_x && in_span(b, y as int, width as int) && (b < py || (b == py && a < px + 1)));
                    }
                    px = px + 1;
                }
                proof {
                    lemma_inked_same(self, orig, |a: int, b: int| start_x <= a < stop_x && in_span(b, y as int, width as int) && (b < py || (b == py && a < px)), |a: int, b: int| start_x <= a < stop_x && in_span(b, y as int, width as int) && b < py + 1);
                }
            } else {
                proof {
                    lemma_inked_on_canvas(self, orig, |a: int, b: int| start_x <= a < stop_x && in_span(b, y as int, width as int) && b < py, |a: int, b: int| start_x <= a < stop_x && in_span(b, y as int, width as int) && b < py + 1);
                }
            }
            py = py + 1;
        }
        proof {
            lemma_inked_on_canvas(self, orig, |a: int, b: int| start_x <= a < stop_x && in_span(b, y as int, width as int) && b < py, goal);
        }
    }

    /// Strokes a line `width` pixels thick down column `x`, from row `y0` to
    /// row `y1`, clipped to the canvas.
    pub fn vertical(&mut self, x: i64, y0: i64, y1: i64, width: i64)
        requires
            old(self).wf(),
            -2 * EDGE_REACH <= x <= 2 * EDGE_REACH,
            -2 * EDGE_REACH <= y0 <= 2 * EDGE_REACH,
            -2 * EDGE_REACH <= y1 <= 2 * EDGE_REACH,
            -EDGE_REACH <= width <= EDGE_REACH,
        ensures
            final(self).wf(),
            final(self).first_x == old(self).first_x,
            final(self).last_x == old(self).last_x,
            final(self).first_y == old(self).first_y,
            final(self).last_y == old(self).last_y,
            final(self).ink == old(self).ink,
            final(self).buffer@ == old(self).inked(
                old(self).buffer@,
                |px: int, py: int| in_span(px, x as int, width as int) && y0 <= py <= y1,
            ),
    {
        let ghost orig = self.buffer@;
        let ghost goal = |px: int, py: int| in_span(px, x as int, width as int) && y0 <= py <= y1;
        let start_y = if y0 > self.first_y {
            y0
        } else {
            self.first_y
        };
        let stop_y = if y1 + 1 < self.last_y {
            y1 + 1
        } else {
            self.last_y
        };
        let xs = centered_span(x, width);
        let mut px = xs.start;
        proof {
            assert(self.inked(orig, |a: int, b: int| false) =~= orig);
            lemma_inked_on_canvas(self, orig, |a: int, b: int| false, |a: int, b: int| in_span(a, x as int, width as int) && start_y <= b < stop_y && a < px);
        }
        while px < xs.end
            invariant
                self.wf(),
                xs.start == span_start(x as int, width as int),
                xs.end == xs.start + width,
                xs.start <= px,
                px <= xs.end || xs.end < xs.start,
                -EDGE_REACH <= width <= EDGE_REACH,
                -2 * EDGE_REACH <= x <= 2 * EDGE_REACH,
                start_y == (if y0 > self.first_y { y0 } else { self.first_y }),
                stop_y == (if y1 + 1 < self.last_y { y1 + 1 } else { self.last_y as int }),
                orig.len() == self.buffer@.len(),
                self.buffer@ == self.inked(orig, |a: int, b: int| in_span(a, x as int, width as int) && start_y <= b < stop_y && a < px),
                self.first_x == old(self).first_x,
                self.last_x == old(self).last_x,
                self.first_y == old(self).first_y,
                self.last_y == old(self).last_y,
                self.span == old(self).span,
                self.ink == old(self).ink,
            decreases xs.end - px,
        {
            if self.first_x <= px && px < self.last_x {
                let mut py = start_y;
                while py < stop_y
                    invariant
                        self.wf(),
                        xs.start == span_start(x as int, width as int),
                        xs.end == xs.start + width,
                        xs.start <= px < xs.end,
                        self.first_x <= px < self.last_x,
                        start_y <= py,
                        py <= stop_y || stop_y < start_y,
                        start_y >= self.first_y,
                        stop_y <= self.last_y,
                        orig.len() == self.buffer@.len(),
                        self.buffer@ == self.inked(orig, |a: int, b: int| in_span(a, x as int, width as int) && start_y <= b < stop_y && (a < px || (a == px && b < py))),
                        self.first_x == old(self).first_x,
                        self.last_x == old(self).last_x,
                        self.first_y == old(self).first_y,
                        self.last_y == old(self).last_y,
                        self.span == old(self).span,
                        self.ink == old(self).ink,
                    decreases stop_y - py,
                {
                    let ghost p = |a: int, b: int| in_span(a, x as int, width as int) && start_y <= b < stop_y && (a < px || (a == px && b < py));
                    proof {
                        lemma_inked_step(self, orig, p, px as int, py as int);
                    }
                    self.paint(px, py);
                    proof {
                        lemma_inked_same(self, orig, |a: int, b: int| p(a, b) || (a == px && b == py), |a: int, b: int| in_span(a, x as int, width as int) && start_y <= b < stop_y && (a < px || (a == px && b < py + 1)));
                    }
                    py = py + 1;
                }
                proof {
                    lemma_inked_on_canvas(self, orig, |a: int, b: int| in_span(a, x as int, width as int) && start_y <= b < stop_y && (a < px || (a == px && b < py)), |a: int, b: int| in_span(a, x as int, width as int) && start_y <= b < stop_y && a < px + 1);
                }
            } else {
                proof {
                    lemma_inked_on_canvas(self, orig, |a: int, b: int| in_span(a, x as int, width as int) && start_y <= b < stop_y && a < px, |a: int, b: int| in_span(a, x as int, width as int) && start_y <= b < stop_y && a < px + 1);
                }
            }
            px = px + 1;
        }
        proof {
            lemma_inked_on_canvas(self, orig, |a: int, b: int| in_span(a, x as int, width as int) && start_y <= b < stop_y && a < px, goal);
        }
    }

    /// A copy of the canvas's pixels.
    pub fn pixels(&self) -> (r: Vec<u8>)
        ensures
            r@ == self.buffer@,
    {
        let mut r: Vec<u8> = Vec::new();
        let mut i: usize = 0;
        while i < self.buffer.len()
            invariant
                i <= self.buffer@.len(),
                r@ == self.buffer@.take(i as int),
            decreases self.buffer.len() - i,
        {
            r.push(self.buffer[i]);
            i = i + 1;
            proof {
                assert(r@ =~= self.buffer@.take(i as int));
            }
        }
        proof {
            assert(self.buffer@.take(i as int) =~= self.buffer@);
        }
        r
    }

    /// The pixel at (`x`, `y`).
    pub fn pixel(&self, x: i64, y: i64) -> (r: (u8, u8, u8, u8))
        requires
            self.wf(),
            self.first_x <= x < self.last_x,
            self.first_y <= y < self.last_y,
        ensures
            ({
                let k = ((y - self.first_y) * self.span + (x - self.first_x)) * 4;
                r == (self.buffer@[k], self.buffer@[k + 1], self.buffer@[k + 2], self.buffer@[k + 3])
            }),
    {
        proof {
            lemma_area(self.span as int, self.last_y - self.first_y, y - self.first_y, x - self.first_x);
            assert(0 <= (y - self.first_y) * self.span <= 4 * EDGE_REACH * EDGE_REACH) by (nonlinear_arith)
                requires
                    0 <= y - self.first_y <= 2 * EDGE_REACH,
                    0 <= self.span <= 2 * EDGE_REACH,
            ;
        }
        let k: usize = (((y - self.first_y) * self.span + (x - self.first_x)) * 4) as usize;
        (self.buffer[k], self.buffer[k + 1], self.buffer[k + 2], self.buffer[k + 3])
    }
}

/// `unit` over and over, `n` times.
pub open spec fn repeat(unit: Seq<u8>, n: int) -> Seq<u8>
    decreases n,
{
    if n <= 0 {
        Seq::empty()
    } else {
        repeat(unit, n - 1) + unit
    }
}

pub open spec fn rgba(c: (u8, u8, u8, u8)) -> Seq<u8> {
    seq![c.0, c.1, c.2, c.3]
}

pub open spec fn at_least_zero(v: int) -> int {
    if v > 0 {
        v
    } else {
        0
    }
}

/// One row of a square box, from column `first_x` to `last_x`: the border
/// on either side and the fill between; all border when the box is no wider
/// than its two borders.
pub open spec fn body_row_spec(width: int, border: int, edge: (u8, u8, u8, u8), fill: (u8, u8, u8, u8), first_x: int, last_x: int) -> Seq<u8> {
    let span = last_x - first_x;
    if width <= 2 * border {
        repeat(rgba(edge), at_least_zero(span))
    } else {
        let left = at_least_zero(border - first_x);
        let right = at_least_zero(border - (width - last_x));
        let middle = at_least_zero(span - left - right);
        repeat(rgba(edge), left) + repeat(rgba(fill), middle) + repeat(rgba(edge), right)
    }
}

/// The rows `first_y` to `last_y` of a square box: border rows at the top
/// and bottom and body rows between; all border when the box is no taller
/// than its two borders.
pub open spec fn square_spec(
    width: int,
    height: int,
    border: int,
    edge: (u8, u8, u8, u8),
    fill: (u8, u8, u8, u8),
    first_x: int,
    last_x: int,
    first_y: int,
    last_y: int,
) -> Seq<u8> {
    let edge_row = repeat(rgba(edge), at_least_zero(last_x - first_x));
    let body = body_row_spec(width, border, edge, fill, first_x, last_x);
    if height <= 2 * border {
        repeat(edge_row, at_least_zero(last_y - first_y))
    } else {
        let top = at_least_zero(border - first_y);
        let bottom = at_least_zero(border - (height - last_y));
        let middle = at_least_zero((last_y - first_y) - top - bottom);
        repeat(edge_row, top) + repeat(body, middle) + repeat(edge_row, bottom)
    }
}

fn push_repeat(out: &mut Vec<u8>, unit: &Vec<u8>, n: i64)
    requires
        n <= EDGE_REACH * 4,
        unit@.len() <= 4 * EDGE_REACH * 4,
    ensures
        final(out)@ == old(out)@ + repeat(unit@, n as int),
{
    let mut i: i64 = 0;
    let ghost start = out@;
    proof {
        assert(start + repeat(unit@, 0) =~= start);
    }
    while i < n
        invariant
            0 <= i,
            i <= n || (n < 0 && i == 0),
            i <= EDGE_REACH * 4,
            n <= EDGE_REACH * 4,
            out@ == start + repeat(unit@, i as int),
        decreases n - i,
    {
        let mut j: usize = 0;
        let ghost before = out@;
        while j < unit.len()
            invariant
                j <= unit@.len(),
                out@ == before + unit@.take(j as int),
            decreases unit.len() - j,
        {
            out.push(unit[j]);
            j = j + 1;
            proof {
                assert(out@ =~= before + unit@.take(j as int));
            }
        }
        proof {
            assert(unit@.take(j as int) =~= unit@);
            assert(repeat(unit@, i + 1) == repeat(unit@, i as int) + unit@);
            assert(out@ =~= start + repeat(unit@, i + 1));
        }
        i = i + 1;
    }
    proof {
        if n < 0 {
            assert(i == 0);
            assert(repeat(unit@, n as int) =~= repeat(unit@, 0));
        }
    }
}

fn pixel_bytes(c: (u8, u8, u8, u8)) -> (r: Vec<u8>)
    ensures
        r@ == rgba(c),
{
    let mut v: Vec<u8> = Vec::new();
    v.push(c.0);
    v.push(c.1);
    v.push(c.2);
    v.push(c.3);
    proof {
        assert(v@ =~= rgba(c));
    }
    v
}

pub open spec fn sizes_ok(width: int, border: int, first: int, last: int) -> bool {
    &&& -EDGE_REACH <= width <= EDGE_REACH
    &&& -EDGE_REACH <= border <= EDGE_REACH
    &&& -EDGE_REACH <= first <= EDGE_REACH
    &&& -EDGE_REACH <= last <= EDGE_REACH
}

/// One row of a square box's pixels.
pub fn body_row(
    width: i64,
    border: i64,
    edge: (u8, u8, u8, u8),
    fill: (u8, u8, u8, u8),
    first_x: i64,
    last_x: i64,
) -> (r: Vec<u8>)
    requires
        sizes_ok(width as int, border as int, first_x as int, last_x as int),
    ensures
        r@ == body_row_spec(width as int, border as int, edge, fill, first_x as int, last_x as int),
{
    let span = last_x - first_x;
    let edge_px = pixel_bytes(edge);
    let fill_px = pixel_bytes(fill);
    let mut row: Vec<u8> = Vec::new();
    if width <= 2 * border {
        push_repeat(&mut row, &edge_px, if span > 0 {
            span
        } else {
            0
        });
        proof {
            assert(row@ =~= body_row_spec(width as int, border as int, edge, fill, first_x as int, last_x as int));
        }
        return row;
    }
    let left_edge = if border - first_x > 0 {
        border - first_x
    } else {
        0
    };
    push_repeat(&mut row, &edge_px, left_edge);
    let right_edge = if border - (width - last_x) > 0 {
        border - (width - last_x)
    } else {
        0
    };
    let fill_count = if span - left_edge - right_edge > 0 {
        span - left_edge - right_edge
    } else {
        0
    };
    push_repeat(&mut row, &fill_px, fill_count);
    push_repeat(&mut row, &edge_px, right_edge);
    proof {
        assert(row@ =~= body_row_spec(width as int, border as int, edge, fill, first_x as int, last_x as int));
    }
    row
}

proof fn lemma_repeat_len(unit: Seq<u8>, n: int)
    ensures
        repeat(unit, n).len() == unit.len() * at_least_zero(n),
    decreases n,
{
    if n > 0 {
        lemma_repeat_len(unit, n - 1);
        assert(unit.len() * (n - 1) + unit.len() == unit.len() * n) by (nonlinear_arith);
    }
}

/// The pixels of the window `first_x .. last_x` by `first_y .. last_y` of a
/// square box.
pub fn square_pixels(
    width: i64,
    height: i64,
    border: i64,
    edge: (u8, u8, u8, u8),
    fill: (u8, u8, u8, u8),
    first_x: i64,
    last_x: i64,
    first_y: i64,
    last_y: i64,
) -> (r: Vec<u8>)
    requires
        sizes_ok(width as int, border as int, first_x as int, last_x as int),
        sizes_ok(height as int, border as int, first_y as int, last_y as int),
    ensures
        r@ == square_spec(
            width as int,
            height as int,
            border as int,
            edge,
            fill,
            first_x as int,
            last_x as int,
            first_y as int,
            last_y as int,
        ),
{
    let edge_px = pixel_bytes(edge);
    let mut edge_row: Vec<u8> = Vec::new();
    let across = if last_x - first_x > 0 {
        last_x - first_x
    } else {
        0
    };
    push_repeat(&mut edge_row, &edge_px, across);
    let body = body_row(width, border, edge, fill, first_x, last_x);
    proof {
        assert(rgba(edge).len() == 4);
        assert(rgba(fill).len() == 4);
        lemma_repeat_len(rgba(edge), across as int);
        assert(edge_row@.len() == 4 * across);
        let span = last_x - first_x;
        if width > 2 * border {
            let left = at_least_zero(border - first_x);
            let right = at_least_zero(border - (width - last_x));
            let middle = at_least_zero(span - left - right);
            lemma_repeat_len(rgba(edge), left);
            lemma_repeat_len(rgba(fill), middle);
            lemma_repeat_len(rgba(edge), right);
        }
        assert(body@.len() <= 4 * 4 * EDGE_REACH * 4);
    }
    let mut pixels: Vec<u8> = Vec::new();
    if height <= 2 * border {
        push_repeat(&mut pixels, &edge_row, if last_y - first_y > 0 {
            last_y - first_y
        } else {
            0
        });
    } else {
        let top_edge = if border - first_y > 0 {
            border - first_y
        } else {
            0
        };
        push_repeat(&mut pixels, &edge_row, top_edge);
        let bottom_edge = if border - (height - last_y) > 0 {
            border - (height - last_y)
        } else {
            0
        };
        let body_count = if (last_y - first_y) - top_edge - bottom_edge > 0 {
            (last_y - first_y) - top_edge - bottom_edge
        } else {
            0
        };
        push_repeat(&mut pixels, &body, body_count);
        push_repeat(&mut pixels, &edge_row, bottom_edge);
    }
    proof {
        assert(pixels@ =~= square_spec(
            width as int,
            height as int,
            border as int,
            edge,
            fill,
            first_x as int,
            last_x as int,
            first_y as int,
            last_y as int,
        ));
    }
    pixels
}

/// What makes two cropped sprites the same: the placement's size, the part
/// of it that is kept, and what is drawn, a plain colour or fill as `PLAIN`.
#[derive(Debug, PartialEq, Eq, Hash)]
pub enum CroppedKey {
    Box {
        width: i64,
        height: i64,
        left: i64,
        top: i64,
        right: i64,
        bottom: i64,
        colour: i64,
        fill: i64,
        rounded: bool,
    },
    Arrow {
        width: i64,
        height: i64,
        left: i64,
        top: i64,
        right: i64,
        bottom: i64,
        stops: Vec<i64>,
        shaft: i64,
    },
}

pub enum CroppedKeyModel {
    Box {
        width: int,
        height: int,
        left: int,
        top: int,
        right: int,
        bottom: int,
        colour: int,
        fill: int,
        rounded: bool,
    },
    Arrow {
        width: int,
        height: int,
        left: int,
        top: int,
        right: int,
        bottom: int,
        stops: Seq<int>,
        shaft: int,
    },
}

impl View for CroppedKey {
    type V = CroppedKeyModel;

    open spec fn view(&self) -> CroppedKeyModel {
        match self {
            CroppedKey::Box { width, height, left, top, right, bottom, colour, fill, rounded } =>
                CroppedKeyModel::Box {
                width: *width as int,
                height: *height as int,
                left: *left as int,
                top: *top as int,
                right: *right as int,
                bottom: *bottom as int,
                colour: *colour as int,
                fill: *fill as int,
                rounded: *rounded,
            },
            CroppedKey::Arrow { width, height, left, top, right, bottom, stops, shaft } =>
                CroppedKeyModel::Arrow {
                width: *width as int,
                height: *height as int,
                left: *left as int,
                top: *top as int,
                right: *right as int,
                bottom: *bottom as int,
                stops: crate::layout::ints(stops@),
                shaft: *shaft as int,
            },
        }
    }
}

/// A colour choice as the palette of five numbers it: plain is `PLAIN`.
pub open spec fn choice_index(c: Option<u8>) -> int {
    match c {
        Some(i) => i as int,
        None => PLAIN as int,
    }
}

/// The key of a box or arrow placement cropped to the cells from `left`,
/// `top` to `right`, `bottom`, the crop taken relative to the placement.
pub open spec fn cropped_key_spec(p: PlacementModel, left: int, top: int, right: int, bottom: int) -> CroppedKeyModel {
    match p.node {
        PlacementNodeModel::Box { colour, fill, rounded } => CroppedKeyModel::Box {
            width: p.width,
            height: p.height,
            left: left - p.x,
            top: top - p.y,
            right: right - p.x,
            bottom: bottom - p.y,
            colour: choice_index(colour),
            fill: choice_index(fill),
            rounded,
        },
        PlacementNodeModel::Arrow { stops, shaft } => CroppedKeyModel::Arrow {
            width: p.width,
            height: p.height,
            left: left - p.x,
            top: top - p.y,
            right: right - p.x,
            bottom: bottom - p.y,
            stops,
            shaft,
        },
        _ => CroppedKeyModel::Box {
            width: 0,
            height: 0,
            left: 0,
            top: 0,
            right: 0,
            bottom: 0,
            colour: 0,
            fill: 0,
            rounded: false,
        },
    }
}

fn index_of_choice(c: Option<u8>) -> (r: i64)
    ensures
        r == choice_index(c),
{
    match c {
        Some(i) => i as i64,
        None => PLAIN,
    }
}

/// The key of a box or arrow placement cropped to part of it.
pub fn sprite_key(placement: &Placement, left: i64, top: i64, right: i64, bottom: i64) -> (r: CroppedKey)
    requires
        placement@.node is Box || placement@.node is Arrow,
        in_reach(placement.x),
        in_reach(placement.y),
        in_reach(left),
        in_reach(top),
        in_reach(right),
        in_reach(bottom),
    ensures
        r@ == cropped_key_spec(placement@, left as int, top as int, right as int, bottom as int),
{
    match &placement.node {
        PlacementNode::Box { colour, fill, rounded } => CroppedKey::Box {
            width: placement.width,
            height: placement.height,
            left: left - placement.x,
            top: top - placement.y,
            right: right - placement.x,
            bottom: bottom - placement.y,
            colour: index_of_choice(*colour),
            fill: index_of_choice(*fill),
            rounded: *rounded,
        },
        PlacementNode::Arrow(arrow) => {
            let mut stops: Vec<i64> = Vec::new();
            let mut i: usize = 0;
            while i < arrow.stops.len()
                invariant
                    i <= arrow.stops.len(),
                    stops@ == arrow.stops@.take(i as int),
                decreases arrow.stops.len() - i,
            {
                stops.push(arrow.stops[i]);
                i = i + 1;
                proof {
                    assert(stops@ =~= arrow.stops@.take(i as int));
                }
            }
            proof {
                assert(arrow.stops@.take(i as int) =~= arrow.stops@);
            }
            CroppedKey::Arrow {
                width: placement.width,
                height: placement.height,
                left: left - placement.x,
                top: top - placement.y,
                right: right - placement.x,
                bottom: bottom - placement.y,
                stops,
                shaft: arrow.shaft,
            }
        },
        _ => CroppedKey::Box {
            width: 0,
            height: 0,
            left: 0,
            top: 0,
            right: 0,
            bottom: 0,
            colour: 0,
            fill: 0,
            rounded: false,
        },
    }
}

/// A coordinate whose differences with another such stay within an `i64`.
pub open spec fn in_reach(v: i64) -> bool {
    -0x2000_0000_0000_0000 <= v <= 0x2000_0000_0000_0000
}

} // verus!
