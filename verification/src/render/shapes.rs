//! The shapes that sprites are filled from: square boxes and arrows.
use vstd::prelude::*;
use crate::canvas::{Rgba, Shape, PIXEL_LIMIT};

verus! {

/// How far from zero a shape's sizes and positions may reach.
pub const SHAPE_REACH: i64 = 0x100_0000_0000;

/// The first of `width` whole numbers centred on `c`, the odd one after it.
pub open spec fn span_start(c: int, width: int) -> int {
    c - (width - 1) / 2
}

pub open spec fn in_span(v: int, c: int, width: int) -> bool {
    span_start(c, width) <= v < span_start(c, width) + width
}

/// The `width` whole numbers centred on `c`.
pub fn centered_span(c: i64, width: i64) -> (r: std::ops::Range<i64>)
    requires
        -2 * SHAPE_REACH <= c <= 2 * SHAPE_REACH,
        -SHAPE_REACH <= width <= SHAPE_REACH,
    ensures
        r.start == span_start(c as int, width as int),
        r.end == span_start(c as int, width as int) + width,
{
    let half = match (width - 1).checked_div_euclid(2) {
        Some(h) => h,
        None => 0,
    };
    let start = c - half;
    start..(start + width)
}

/// A box with square corners: a border `border` pixels thick in the edge
/// colour, the fill inside it, and nothing outside it.
pub struct BoxShape {
    pub width: i64,
    pub height: i64,
    pub border: i64,
    pub radius: i64,
    pub edge: Rgba,
    pub fill: Rgba,
}

pub open spec fn inside(x: int, y: int, first_x: int, last_x: int, first_y: int, last_y: int) -> bool {
    first_x <= x < last_x && first_y <= y < last_y
}

impl Shape for BoxShape {
    /// Square boxes only: rounded corners are drawn by the terminal front end.
    open spec fn shape_ok(&self) -> bool {
        &&& self.radius == 0
        &&& -SHAPE_REACH <= self.width <= SHAPE_REACH
        &&& -SHAPE_REACH <= self.height <= SHAPE_REACH
        &&& -SHAPE_REACH <= self.border <= SHAPE_REACH
    }

    open spec fn colour_spec(&self, x: int, y: int) -> Option<[u8; 4]> {
        if !inside(x, y, 0, self.width as int, 0, self.height as int) {
            None
        } else if inside(
            x,
            y,
            self.border as int,
            self.width - self.border,
            self.border as int,
            self.height - self.border,
        ) {
            if self.fill[3] == 0 {
                None
            } else {
                Some(self.fill)
            }
        } else if self.edge[3] == 0 {
            None
        } else {
            Some(self.edge)
        }
    }

    fn colour_at(&self, x: i64, y: i64) -> (r: Option<[u8; 4]>) {
        if !(0 <= x && x < self.width && 0 <= y && y < self.height) {
            None
        } else if self.border <= x && x < self.width - self.border && self.border <= y && y
            < self.height - self.border {
            if self.fill[3] == 0 {
                None
            } else {
                Some(self.fill)
            }
        } else if self.edge[3] == 0 {
            None
        } else {
            Some(self.edge)
        }
    }
}

/// How far the arrowhead's two strokes spread from the line `d` pixels back
/// from its tip: the whole number nearest `d` times the tangent of thirty
/// degrees.
pub open spec fn spread_spec(d: int) -> int {
    if d <= 0 {
        0
    } else if d <= 2 {
        1
    } else if d <= 4 {
        2
    } else if d <= 6 {
        3
    } else if d == 7 {
        4
    } else if d <= 9 {
        5
    } else if d <= 11 {
        6
    } else {
        7
    }
}

/// `s` is the whole number nearest `d / sqrt(3)`.
pub open spec fn nearest_spread(d: int, s: int) -> bool {
    &&& s >= 0
    &&& 4 * d * d < 3 * (2 * s + 1) * (2 * s + 1)
    &&& (s == 0 || 3 * (2 * s - 1) * (2 * s - 1) < 4 * d * d)
}

/// How many pixels back from its tip the arrowhead reaches: those `d` closer
/// than fifteen times the cosine of thirty degrees.
pub open spec fn in_head(d: int) -> bool {
    0 <= d && 4 * d * d < 675
}

/// The spread is the nearest whole number, all along the arrowhead.
pub proof fn lemma_spread_nearest(d: int)
    requires
        in_head(d),
    ensures
        nearest_spread(d, spread_spec(d)),
{
    assert(0 <= d <= 12) by (nonlinear_arith)
        requires
            0 <= d,
            4 * d * d < 675,
    ;
    assert(nearest_spread(d, spread_spec(d))) by (nonlinear_arith)
        requires
            0 <= d <= 12,
    ;
}

fn spread(d: i64) -> (s: i64)
    requires
        0 <= d <= 12,
    ensures
        s == spread_spec(d as int),
{
    if d <= 0 {
        0
    } else if d <= 2 {
        1
    } else if d <= 4 {
        2
    } else if d <= 6 {
        3
    } else if d == 7 {
        4
    } else if d <= 9 {
        5
    } else if d <= 11 {
        6
    } else {
        7
    }
}

/// An arrow from a parent to its children: the shaft along the parent's
/// row to the trunk halfway across, the trunk down the children's rows, and
/// a line with an arrowhead along each child's row.
pub struct ArrowShape {
    pub width: i64,
    pub stop_rows: Vec<i64>,
    pub shaft_row: i64,
    pub trunk: (i64, i64),
    pub stroke: i64,
    pub ink: Rgba,
}

pub open spec fn reach_ok(v: int) -> bool {
    -SHAPE_REACH <= v <= SHAPE_REACH
}

/// What an arrow is drawn from, as mathematical values.
pub struct ArrowModel {
    pub width: int,
    pub stop_rows: Seq<i64>,
    pub shaft_row: int,
    pub trunk: (int, int),
    pub stroke: int,
    pub ink: [u8; 4],
}

pub open spec fn arrow_midpoint(m: ArrowModel) -> int {
    m.width / 2
}

pub open spec fn arrow_in_shaft(m: ArrowModel, x: int, y: int) -> bool {
    0 <= x <= arrow_midpoint(m) && in_span(y, m.shaft_row, m.stroke)
}

pub open spec fn arrow_in_trunk(m: ArrowModel, x: int, y: int) -> bool {
    in_span(x, arrow_midpoint(m), m.stroke) && m.trunk.0 <= y <= m.trunk.1
}

pub open spec fn arrow_in_stop(m: ArrowModel, x: int, y: int, row: int) -> bool {
    arrow_midpoint(m) <= x <= m.width - 1 && in_span(y, row, m.stroke)
}

pub open spec fn arrow_head_point(m: ArrowModel, x: int, y: int, row: int, d: int) -> bool {
    let tip = m.width - 1;
    &&& in_head(d)
    &&& tip - d >= arrow_midpoint(m)
    &&& in_span(x, tip - d, m.stroke)
    &&& (in_span(y, row - spread_spec(d), m.stroke) || in_span(y, row + spread_spec(d), m.stroke))
}

pub open spec fn arrow_in_head(m: ArrowModel, x: int, y: int, row: int) -> bool {
    exists|d: int| #[trigger] arrow_head_point(m, x, y, row, d)
}

pub open spec fn arrow_on_stop(m: ArrowModel, x: int, y: int, j: int) -> bool {
    arrow_in_stop(m, x, y, m.stop_rows[j] as int) || arrow_in_head(m, x, y, m.stop_rows[j] as int)
}

/// The arrow's ink where its shaft, trunk, stops or arrowheads pass, and
/// nothing elsewhere.
pub open spec fn arrow_colour(m: ArrowModel, x: int, y: int) -> Option<[u8; 4]> {
    if arrow_in_shaft(m, x, y) || arrow_in_trunk(m, x, y) || exists|j: int|
        0 <= j < m.stop_rows.len() && #[trigger] arrow_on_stop(m, x, y, j) {
        Some(m.ink)
    } else {
        None
    }
}

impl ArrowShape {
    pub open spec fn model(&self) -> ArrowModel {
        ArrowModel {
            width: self.width as int,
            stop_rows: self.stop_rows@,
            shaft_row: self.shaft_row as int,
            trunk: (self.trunk.0 as int, self.trunk.1 as int),
            stroke: self.stroke as int,
            ink: self.ink,
        }
    }

    pub open spec fn midpoint_spec(&self) -> int {
        arrow_midpoint(self.model())
    }

    pub open spec fn in_shaft_spec(&self, x: int, y: int) -> bool {
        arrow_in_shaft(self.model(), x, y)
    }

    pub open spec fn in_trunk_spec(&self, x: int, y: int) -> bool {
        arrow_in_trunk(self.model(), x, y)
    }

    pub open spec fn in_stop_spec(&self, x: int, y: int, row: int) -> bool {
        arrow_in_stop(self.model(), x, y, row)
    }

    pub open spec fn head_point(&self, x: int, y: int, row: int, d: int) -> bool {
        arrow_head_point(self.model(), x, y, row, d)
    }

    pub open spec fn in_arrowhead_spec(&self, x: int, y: int, row: int) -> bool {
        arrow_in_head(self.model(), x, y, row)
    }

    pub open spec fn on_stop(&self, x: int, y: int, j: int) -> bool {
        arrow_on_stop(self.model(), x, y, j)
    }

    fn midpoint(&self) -> (r: i64)
        requires
            reach_ok(self.width as int),
        ensures
            r == self.midpoint_spec(),
    {
        match self.width.checked_div_euclid(2) {
            Some(m) => m,
            None => 0,
        }
    }

    fn in_shaft(&self, x: i64, y: i64) -> (r: bool)
        requires
            self.shape_ok(),
            reach_ok(x as int),
            reach_ok(y as int),
        ensures
            r == self.in_shaft_spec(x as int, y as int),
    {
        let span = centered_span(self.shaft_row, self.stroke);
        0 <= x && x <= self.midpoint() && span.start <= y && y < span.end
    }

    fn in_trunk(&self, x: i64, y: i64) -> (r: bool)
        requires
            self.shape_ok(),
            reach_ok(x as int),
            reach_ok(y as int),
        ensures
            r == self.in_trunk_spec(x as int, y as int),
    {
        let span = centered_span(self.midpoint(), self.stroke);
        span.start <= x && x < span.end && self.trunk.0 <= y && y <= self.trunk.1
    }

    fn in_stop(&self, x: i64, y: i64, row: i64) -> (r: bool)
        requires
            self.shape_ok(),
            reach_ok(x as int),
            reach_ok(y as int),
            reach_ok(row as int),
        ensures
            r == self.in_stop_spec(x as int, y as int, row as int),
    {
        let span = centered_span(row, self.stroke);
        self.midpoint() <= x && x <= self.width - 1 && span.start <= y && y < span.end
    }

    fn in_arrowhead(&self, x: i64, y: i64, row: i64) -> (r: bool)
        requires
            self.shape_ok(),
            reach_ok(x as int),
            reach_ok(y as int),
            reach_ok(row as int),
        ensures
            r == self.in_arrowhead_spec(x as int, y as int, row as int),
    {
        let tip = self.width - 1;
        let middle = self.midpoint();
        let mut d: i64 = 0;
        while d <= 12 && tip - d >= middle
            invariant
                self.shape_ok(),
                reach_ok(x as int),
                reach_ok(y as int),
                reach_ok(row as int),
                0 <= d <= 13,
                tip == self.width - 1,
                middle == self.midpoint_spec(),
                forall|e: int| 0 <= e < d ==> !#[trigger] arrow_head_point(self.model(), x as int, y as int, row as int, e),
            decreases 13 - d,
        {
            let s = spread(d);
            let column = centered_span(tip - d, self.stroke);
            let above = centered_span(row - s, self.stroke);
            let below = centered_span(row + s, self.stroke);
            proof {
                assert(in_head(d as int)) by (nonlinear_arith)
                    requires
                        0 <= d <= 12,
                ;
            }
            if column.start <= x && x < column.end && ((above.start <= y && y < above.end) || (
            below.start <= y && y < below.end)) {
                proof {
                    assert(arrow_head_point(self.model(), x as int, y as int, row as int, d as int));
                }
                return true;
            }
            d = d + 1;
        }
        proof {
            assert forall|e: int| !#[trigger] arrow_head_point(self.model(), x as int, y as int, row as int, e) by {
                if arrow_head_point(self.model(), x as int, y as int, row as int, e) {
                    assert(0 <= e <= 12) by (nonlinear_arith)
                        requires
                            0 <= e,
                            4 * e * e < 675,
                    ;
                }
            }
        }
        false
    }
}

impl Shape for ArrowShape {
    open spec fn shape_ok(&self) -> bool {
        &&& reach_ok(self.width as int)
        &&& reach_ok(self.shaft_row as int)
        &&& reach_ok(self.trunk.0 as int)
        &&& reach_ok(self.trunk.1 as int)
        &&& 0 <= self.stroke <= SHAPE_REACH
        &&& forall|j: int| 0 <= j < self.stop_rows@.len() ==> reach_ok(#[trigger] self.stop_rows@[j] as int)
    }

    open spec fn colour_spec(&self, x: int, y: int) -> Option<[u8; 4]> {
        arrow_colour(self.model(), x, y)
    }

    fn colour_at(&self, x: i64, y: i64) -> (r: Option<[u8; 4]>) {
        if self.in_shaft(x, y) || self.in_trunk(x, y) {
            return Some(self.ink);
        }
        let mut j: usize = 0;
        while j < self.stop_rows.len()
            invariant
                self.shape_ok(),
                -PIXEL_LIMIT <= x <= PIXEL_LIMIT,
                -PIXEL_LIMIT <= y <= PIXEL_LIMIT,
                j <= self.stop_rows@.len(),
                forall|k: int| 0 <= k < j ==> !#[trigger] arrow_on_stop(self.model(), x as int, y as int, k),
            decreases self.stop_rows.len() - j,
        {
            let row = self.stop_rows[j];
            proof {
                assert(reach_ok(self.stop_rows@[j as int] as int));
            }
            if self.in_stop(x, y, row) || self.in_arrowhead(x, y, row) {
                proof {
                    assert(arrow_on_stop(self.model(), x as int, y as int, j as int));
                }
                return Some(self.ink);
            }
            j = j + 1;
        }
        None
    }
}

} // verus!
