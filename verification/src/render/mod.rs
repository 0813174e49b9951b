//! Drawing placements: moving them into an area of the screen, and the
//! colours they are drawn in.
use vstd::prelude::*;

pub mod svg;
pub mod shapes;
pub mod font;
pub mod terminal;
use crate::composer::Area;
use crate::layout::{
    Placement, PlacementModel, views, within, all_within, right_edge, bottom_edge, diagram,
    diagram_spec, with_cursor, with_cursor_spec, layout_fits, all_bounded, bounded, cursor_after,
    first_label_index,
};
use crate::palette::{palette, palette_spec, FOREGROUND, PALETTE_LEN};
use crate::diagram::{colour_ok, models, indices, selection_indices, DocModel};
use crate::state::State;

verus! {

/// Width of a character cell, in pixels.
pub const CELL_WIDTH: i64 = 8;

/// Height of a character cell, in pixels.
pub const CELL_HEIGHT: i64 = 16;

/// Radius of a rounded box's corners, in pixels.
pub const ROUNDED_RADIUS: i64 = 20;

/// Thickness of a box's border, in pixels.
pub const BORDER: i64 = 4;

/// Alpha of a fully opaque pixel.
pub const OPAQUE: u8 = 255;

/// How much of a box's colour shows through its fill, out of `OPAQUE`.
pub const FILL_ALPHA: u16 = 77;

/// How far from zero the placements that are moved about may reach.
pub const PLACE_LIMIT: i64 = 0x800_0000_0000_0000;

/// How far from zero an area's corner and size may reach.
pub const AREA_REACH: i64 = 0x100_0000_0000_0000;

pub open spec fn moved(ps: Seq<PlacementModel>, dx: int, dy: int) -> Seq<PlacementModel> {
    Seq::new(ps.len(), |i: int| PlacementModel { x: ps[i].x + dx, y: ps[i].y + dy, ..ps[i] })
}

pub open spec fn area_ok(a: Area) -> bool {
    &&& -AREA_REACH <= a.col <= AREA_REACH
    &&& -AREA_REACH <= a.row <= AREA_REACH
    &&& -AREA_REACH <= a.cols <= AREA_REACH
    &&& -AREA_REACH <= a.rows <= AREA_REACH
}

/// Moves every placement by `dx` columns and `dy` rows.
pub fn offset<'a>(placements: Vec<Placement<'a>>, dx: i64, dy: i64) -> (r: Vec<Placement<'a>>)
    requires
        all_within(views(placements@), PLACE_LIMIT as int),
        -PLACE_LIMIT <= dx <= PLACE_LIMIT,
        -PLACE_LIMIT <= dy <= PLACE_LIMIT,
    ensures
        views(r@) == moved(views(placements@), dx as int, dy as int),
{
    let ghost ps = views(placements@);
    let mut out: Vec<Placement<'a>> = Vec::new();
    let mut i: usize = 0;
    while i < placements.len()
        invariant
            i <= placements.len(),
            ps == views(placements@),
            all_within(ps, PLACE_LIMIT as int),
            -PLACE_LIMIT <= dx <= PLACE_LIMIT,
            -PLACE_LIMIT <= dy <= PLACE_LIMIT,
            out@.len() == i,
            forall|j: int| 0 <= j < i ==> #[trigger] views(out@)[j] == moved(ps, dx as int, dy as int)[j],
        decreases placements.len() - i,
    {
        proof {
            assert(within(ps[i as int], PLACE_LIMIT as int));
        }
        let p = &placements[i];
        let q = Placement { node: p.node.clone(), x: p.x + dx, y: p.y + dy, width: p.width, height: p.height };
        let ghost before = out@;
        let ghost qv = q@;
        assert(qv == moved(ps, dx as int, dy as int)[i as int]);
        out.push(q);
        proof {
            assert(views(out@)[i as int] == qv);
            assert forall|j: int| 0 <= j < i + 1 implies #[trigger] views(out@)[j] == moved(ps, dx as int, dy as int)[j] by {
                if j < i {
                    assert(out@[j] == before[j]);
                    assert(views(before)[j] == moved(ps, dx as int, dy as int)[j]);
                }
            }
        }
        i = i + 1;
    }
    proof {
        assert(views(out@) =~= moved(ps, dx as int, dy as int));
    }
    out
}

/// Moves every placement by an area's corner.
pub fn shift<'a>(placements: Vec<Placement<'a>>, area: Area) -> (r: Vec<Placement<'a>>)
    requires
        all_within(views(placements@), PLACE_LIMIT as int),
        area_ok(area),
    ensures
        views(r@) == moved(views(placements@), area.col as int, area.row as int),
{
    offset(placements, area.col, area.row)
}

/// The leftmost left edge of the placements.
pub open spec fn left_edge(ps: Seq<PlacementModel>) -> int
    decreases ps.len(),
{
    if ps.len() <= 1 {
        ps[0].x
    } else {
        let a = left_edge(ps.drop_last());
        let b = ps.last().x;
        if a <= b {
            a
        } else {
            b
        }
    }
}

/// How far a centred diagram moves: half the room left over in the area,
/// rounded down, plus the area's corner.
pub open spec fn centre_shift(ps: Seq<PlacementModel>, area: Area) -> (int, int) {
    let span = right_edge(ps) - left_edge(ps);
    let height = bottom_edge(ps);
    (area.col + (area.cols - span) / 2, area.row + (area.rows - height) / 2)
}

pub open spec fn centre_spec(ps: Seq<PlacementModel>, area: Area) -> Seq<PlacementModel> {
    if ps.len() == 0 {
        ps
    } else {
        let (dx, dy) = centre_shift(ps, area);
        moved(ps, dx, dy)
    }
}

proof fn lemma_edges_within(ps: Seq<PlacementModel>, b: int)
    requires
        all_within(ps, b),
        ps.len() > 0,
        b >= 0,
    ensures
        -b <= left_edge(ps) <= b,
        -2 * b <= right_edge(ps) <= 2 * b,
        -2 * b <= bottom_edge(ps) <= 2 * b,
    decreases ps.len(),
{
    assert(within(ps[0], b));
    if ps.len() > 1 {
        let d = ps.drop_last();
        assert forall|i: int| 0 <= i < d.len() implies within(#[trigger] d[i], b) by {
            assert(d[i] == ps[i]);
        }
        lemma_edges_within(d, b);
        assert(within(ps[ps.len() - 1], b));
    }
}

proof fn lemma_moved_edges(ps: Seq<PlacementModel>, dx: int, dy: int)
    requires
        ps.len() > 0,
    ensures
        left_edge(moved(ps, dx, dy)) == left_edge(ps) + dx,
        right_edge(moved(ps, dx, dy)) == right_edge(ps) + dx,
        bottom_edge(moved(ps, dx, dy)) == bottom_edge(ps) + dy,
    decreases ps.len(),
{
    let m = moved(ps, dx, dy);
    if ps.len() > 1 {
        lemma_moved_edges(ps.drop_last(), dx, dy);
        assert(m.drop_last() =~= moved(ps.drop_last(), dx, dy));
        assert(m.last() == m[ps.len() - 1]);
    } else {
        assert(m[0] == m[ps.len() - 1]);
    }
}

/// Centring moves the whole diagram by one offset: its left and right
/// edges by half the room the area leaves across, rounded down, and its
/// bottom by half the room left below; so a diagram that starts at the left
/// edge and fits has as much room on its left as on its right, or one
/// column less.
pub proof fn law_centre_splits_the_room(ps: Seq<PlacementModel>, area: Area)
    requires
        ps.len() > 0,
    ensures
        ({
            let c = centre_spec(ps, area);
            let span = right_edge(ps) - left_edge(ps);
            let h = bottom_edge(ps);
            let dx = area.col + (area.cols - span) / 2;
            &&& c.len() == ps.len()
            &&& left_edge(c) == left_edge(ps) + dx
            &&& right_edge(c) == right_edge(ps) + dx
            &&& bottom_edge(c) == h + area.row + (area.rows - h) / 2
            &&& (left_edge(ps) == 0 && span <= area.cols) ==> (0 <= (area.col + area.cols - right_edge(c))
                - (left_edge(c) - area.col) <= 1)
        }),
{
    let (dx, dy) = centre_shift(ps, area);
    lemma_moved_edges(ps, dx, dy);
}

fn half_down(v: i64) -> (r: i64)
    requires
        v > i64::MIN,
    ensures
        r == v / 2,
{
    match v.checked_div_euclid(2) {
        Some(h) => h,
        None => 0,
    }
}

/// Centres placements in an area, both ways; a diagram wider or taller than
/// the area overhangs it equally, the odd cell on the left or top.
pub fn centre<'a>(placements: Vec<Placement<'a>>, area: Area) -> (r: Vec<Placement<'a>>)
    requires
        all_within(views(placements@), AREA_REACH as int),
        area_ok(area),
    ensures
        views(r@) == centre_spec(views(placements@), area),
{
    let ghost ps = views(placements@);
    if placements.len() == 0 {
        return placements;
    }
    proof {
        lemma_edges_within(ps, AREA_REACH as int);
        assert forall|i: int| 0 <= i < ps.len() implies within(#[trigger] ps[i], PLACE_LIMIT as int) by {
            assert(within(ps[i], AREA_REACH as int));
        }
    }
    let mut min_x: i64 = placements[0].x;
    let mut max_right: i64 = placements[0].x + placements[0].width;
    let mut max_bottom: i64 = placements[0].y + placements[0].height;
    let mut i: usize = 1;
    proof {
        assert(ps.take(1)[0] == ps[0]);
    }
    while i < placements.len()
        invariant
            1 <= i <= placements.len(),
            ps == views(placements@),
            all_within(ps, AREA_REACH as int),
            min_x == left_edge(ps.take(i as int)),
            max_right == right_edge(ps.take(i as int)),
            max_bottom == bottom_edge(ps.take(i as int)),
        decreases placements.len() - i,
    {
        proof {
            assert(within(ps[i as int], AREA_REACH as int));
            assert(ps.take(i + 1).drop_last() =~= ps.take(i as int));
            assert(ps.take(i + 1).last() == ps[i as int]);
        }
        let p = &placements[i];
        if p.x < min_x {
            min_x = p.x;
        }
        if p.x + p.width > max_right {
            max_right = p.x + p.width;
        }
        if p.y + p.height > max_bottom {
            max_bottom = p.y + p.height;
        }
        i = i + 1;
    }
    proof {
        assert(ps.take(i as int) =~= ps);
    }
    let span = max_right - min_x;
    let horizontal = half_down(area.cols - span);
    let vertical = half_down(area.rows - max_bottom);
    offset(placements, horizontal + area.col, vertical + area.row)
}

/// The diagram of a document as the body of the editor shows it: the
/// boxes laid out, a caret after the selected label, all centred in the area.
pub open spec fn body_spec(doc: DocModel, area: Area) -> Seq<PlacementModel> {
    centre_spec(with_cursor_spec(diagram_spec(doc.boxes), selection_indices(doc.selected)), area)
}

proof fn lemma_cursor_within(ps: Seq<PlacementModel>, sel: Option<Seq<usize>>)
    requires
        all_bounded(ps),
    ensures
        all_within(with_cursor_spec(ps, sel), AREA_REACH as int),
{
    assert forall|i: int| 0 <= i < ps.len() implies within(#[trigger] ps[i], AREA_REACH as int) by {
        assert(bounded(ps[i]));
    }
    match sel {
        Some(path) => {
            if exists|k: int| crate::layout::first_label(ps, path, k) {
                let k = first_label_index(ps, path);
                assert(bounded(ps[k]));
                let q = ps.push(cursor_after(ps[k]));
                assert forall|i: int| 0 <= i < q.len() implies within(#[trigger] q[i], AREA_REACH as int) by {
                    if i < ps.len() {
                        assert(q[i] == ps[i]);
                    }
                }
            }
        },
        None => {},
    }
}

/// The body of the editor: the diagram of the state's document, with a
/// caret after the selected box's label, centred in the area.
pub fn body<'a>(state: &'a State, area: Area) -> (r: Vec<Placement<'a>>)
    requires
        layout_fits(state@.doc.boxes),
        area_ok(area),
    ensures
        views(r@) == body_spec(state@.doc, area),
{
    let laid = diagram(&state.doc.boxes);
    let selected = match &state.doc.selected {
        Some(p) => Some(indices(p)),
        None => None,
    };
    proof {
        lemma_cursor_within(views(laid@), selection_indices(state@.doc.selected));
    }
    let marked = with_cursor(laid, selected);
    centre(marked, area)
}

pub open spec fn aligned_right(ps: Seq<PlacementModel>, area: Area) -> Seq<PlacementModel> {
    Seq::new(
        ps.len(),
        |i: int| PlacementModel { x: area.col + area.cols - ps[i].width, y: area.row as int, ..ps[i] },
    )
}

/// Puts every placement against the right edge of an area, on its top row.
pub fn align_right<'a>(placements: Vec<Placement<'a>>, area: Area) -> (r: Vec<Placement<'a>>)
    requires
        all_within(views(placements@), PLACE_LIMIT as int),
        area_ok(area),
    ensures
        views(r@) == aligned_right(views(placements@), area),
{
    let ghost ps = views(placements@);
    let mut out: Vec<Placement<'a>> = Vec::new();
    let mut i: usize = 0;
    while i < placements.len()
        invariant
            i <= placements.len(),
            ps == views(placements@),
            all_within(ps, PLACE_LIMIT as int),
            area_ok(area),
            out@.len() == i,
            forall|j: int| 0 <= j < i ==> #[trigger] views(out@)[j] == aligned_right(ps, area)[j],
        decreases placements.len() - i,
    {
        proof {
            assert(within(ps[i as int], PLACE_LIMIT as int));
        }
        let p = &placements[i];
        let q = Placement {
            node: p.node.clone(),
            x: area.col + area.cols - p.width,
            y: area.row,
            width: p.width,
            height: p.height,
        };
        let ghost before = out@;
        let ghost qv = q@;
        assert(qv == aligned_right(ps, area)[i as int]);
        out.push(q);
        proof {
            assert(views(out@)[i as int] == qv);
            assert forall|j: int| 0 <= j < i + 1 implies #[trigger] views(out@)[j] == aligned_right(ps, area)[j] by {
                if j < i {
                    assert(out@[j] == before[j]);
                    assert(views(before)[j] == aligned_right(ps, area)[j]);
                }
            }
        }
        i = i + 1;
    }
    proof {
        assert(views(out@) =~= aligned_right(ps, area));
    }
    out
}

/// The colour a box is drawn in: its palette colour, or the foreground
/// when it is plain.
pub fn colour(choice: Option<u8>) -> (r: (u8, u8, u8))
    requires
        colour_ok(choice),
    ensures
        Some(r) == palette_spec(match choice {
            Some(c) => c,
            None => FOREGROUND,
        }),
{
    let index = match choice {
        Some(c) => c,
        None => FOREGROUND,
    };
    match palette(index) {
        Some(c) => c,
        None => (0, 0, 0),
    }
}

} // verus!
