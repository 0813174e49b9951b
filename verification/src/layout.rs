//! Where each box, label and arrow of a diagram goes, in character cells.
//!
//! The boxes of one depth share a column, as wide as the widest of them, and
//! a gap column for the arrows follows each column that has children in it.
//! Leaves take every other row from the top, in order; a parent sits level
//! with the middle of its children.
use vstd::prelude::*;
use crate::diagram::{BoxModel, Node, model, models, lemma_models, colour_ok};
use crate::status_line::{box_total, tree_total};
use crate::text::chars_of;

verus! {

pub const BOX_HEIGHT: i64 = 3;
pub const GAP_HEIGHT: i64 = 3;
pub const GAP_WIDTH: i64 = 8;
pub const BORDERS: i64 = 2;
pub const ROW_PITCH: i64 = 6;
pub const HALF_PITCH: i64 = 3;
pub const LEAF_STRIDE: i64 = 2;
pub const FOOTER_ROWS: i64 = 3;
pub const FOOTER_COLOUR: u8 = 0;

/// How large a diagram the layout takes on, counting each label character
/// once and each box eleven times: as much as keeps every coordinate, once
/// drawn at sixteen pixels a cell and moved to the middle of a canvas, inside
/// an `i64`.
pub const LAYOUT_LIMIT: i64 = 0x8_0000_0000_0000;

/// How many cells a label takes inside its box: its length, and at least one.
pub open spec fn interior_spec(label: Seq<char>) -> int {
    if label.len() == 0 {
        1
    } else {
        label.len() as int
    }
}

pub open spec fn width_spec(b: BoxModel) -> int {
    interior_spec(b.label) + BORDERS
}

/// The label's first column inside a box `width` wide: the leftover space is
/// split with the larger half on the left.
pub open spec fn centre_spec(width: int, label: Seq<char>) -> int {
    let leftover = width - BORDERS - interior_spec(label);
    1 + leftover - leftover / 2
}

/// A label sits inside its box, clear of both borders, with the room left
/// over split evenly, the odd cell on the left.
pub proof fn law_label_centred(width: int, label: Seq<char>)
    requires
        width >= interior_spec(label) + BORDERS,
    ensures
        ({
            let c = centre_spec(width, label);
            let left = c - 1;
            let right = width - 1 - (c + interior_spec(label));
            &&& left >= 0 && right >= 0
            &&& left == right || left == right + 1
        }),
{
}

/// How many label characters a forest holds.
pub open spec fn chars_total(bs: Seq<BoxModel>) -> nat
    decreases bs,
{
    if bs.len() == 0 {
        0
    } else {
        chars_total(bs.drop_last()) + tree_chars(bs.last())
    }
}

pub open spec fn tree_chars(b: BoxModel) -> nat
    decreases b,
{
    b.label.len() + chars_total(b.children)
}

/// The diagrams that the layout takes on: their coordinates stay within an
/// `i64`, and their rows, counted in a `usize`, within a `usize`.
pub open spec fn layout_fits(bs: Seq<BoxModel>) -> bool {
    &&& chars_total(bs) + 11 * box_total(bs) <= LAYOUT_LIMIT
    &&& chars_total(bs) + 11 * box_total(bs) <= usize::MAX
}

/// How far the row counter may go: within the layout's limit and a `usize`.
pub open spec fn row_room() -> int {
    if usize::MAX < LAYOUT_LIMIT {
        usize::MAX as int
    } else {
        LAYOUT_LIMIT as int
    }
}

pub open spec fn at_or_zero(s: Seq<int>, i: int) -> int {
    if 0 <= i < s.len() {
        s[i]
    } else {
        0
    }
}

/// Two lists of column widths side by side: the wider of each column.
pub open spec fn merge(a: Seq<int>, b: Seq<int>) -> Seq<int> {
    let n = if a.len() >= b.len() {
        a.len()
    } else {
        b.len()
    };
    Seq::new(
        n,
        |i: int|
            if at_or_zero(a, i) >= at_or_zero(b, i) {
                at_or_zero(a, i)
            } else {
                at_or_zero(b, i)
            },
    )
}

/// The column widths of a forest: column `2 * d` is as wide as the widest
/// box at depth `d`, and column `2 * d + 1` holds the arrows out of it.
pub open spec fn measure_forest(bs: Seq<BoxModel>) -> Seq<int>
    decreases bs,
{
    if bs.len() == 0 {
        Seq::empty()
    } else {
        merge(measure_forest(bs.drop_last()), measure_tree(bs.last()))
    }
}

pub open spec fn measure_tree(b: BoxModel) -> Seq<int>
    decreases b,
{
    if b.children.len() == 0 {
        seq![width_spec(b)]
    } else {
        seq![width_spec(b), GAP_WIDTH as int] + measure_forest(b.children)
    }
}

pub open spec fn seq_sum(s: Seq<int>) -> int
    decreases s.len(),
{
    if s.len() == 0 {
        0
    } else {
        seq_sum(s.drop_last()) + s.last()
    }
}

pub open spec fn nonneg(s: Seq<int>) -> bool {
    forall|i: int| 0 <= i < s.len() ==> #[trigger] s[i] >= 0
}

proof fn lemma_sum_push(s: Seq<int>, v: int)
    ensures
        seq_sum(s.push(v)) == seq_sum(s) + v,
{
    assert(s.push(v).drop_last() =~= s);
}

proof fn lemma_sum_concat(a: Seq<int>, b: Seq<int>)
    ensures
        seq_sum(a + b) == seq_sum(a) + seq_sum(b),
    decreases b.len(),
{
    if b.len() == 0 {
        assert(a + b =~= a);
    } else {
        lemma_sum_concat(a, b.drop_last());
        assert((a + b).drop_last() =~= a + b.drop_last());
    }
}

proof fn lemma_sum_nonneg(s: Seq<int>)
    requires
        nonneg(s),
    ensures
        seq_sum(s) >= 0,
    decreases s.len(),
{
    if s.len() > 0 {
        lemma_sum_nonneg(s.drop_last());
    }
}

proof fn lemma_merge_sum(a: Seq<int>, b: Seq<int>)
    requires
        nonneg(a),
        nonneg(b),
    ensures
        nonneg(merge(a, b)),
        seq_sum(merge(a, b)) <= seq_sum(a) + seq_sum(b),
    decreases a.len() + b.len(),
{
    let m = merge(a, b);
    if a.len() == 0 {
        assert(m =~= b);
        return;
    }
    if b.len() == 0 {
        assert(m =~= a);
        return;
    }
    if a.len() == b.len() {
        lemma_merge_sum(a.drop_last(), b.drop_last());
        assert(m.drop_last() =~= merge(a.drop_last(), b.drop_last()));
        lemma_sum_nonneg(a.drop_last());
        lemma_sum_nonneg(b.drop_last());
    } else if a.len() > b.len() {
        lemma_merge_sum(a.drop_last(), b);
        assert(m.drop_last() =~= merge(a.drop_last(), b));
    } else {
        lemma_merge_sum(a, b.drop_last());
        assert(m.drop_last() =~= merge(a, b.drop_last()));
    }
}

/// The column widths are never negative and add up to no more than the
/// labels' length and eleven cells a box.
pub proof fn lemma_measure_bound(bs: Seq<BoxModel>)
    ensures
        nonneg(measure_forest(bs)),
        seq_sum(measure_forest(bs)) <= chars_total(bs) + 11 * box_total(bs),
    decreases bs,
{
    if bs.len() > 0 {
        let b = bs.last();
        lemma_measure_bound(bs.drop_last());
        lemma_measure_tree_bound(b);
        lemma_merge_sum(measure_forest(bs.drop_last()), measure_tree(b));
    }
}

proof fn lemma_measure_tree_bound(b: BoxModel)
    ensures
        nonneg(measure_tree(b)),
        seq_sum(measure_tree(b)) <= tree_chars(b) + 11 * tree_total(b),
    decreases b,
{
    lemma_measure_bound(b.children);
    if b.children.len() == 0 {
        assert(seq![width_spec(b)] =~= Seq::<int>::empty().push(width_spec(b)));
        lemma_sum_push(Seq::empty(), width_spec(b));
    } else {
        let head = seq![width_spec(b), GAP_WIDTH as int];
        assert(head =~= Seq::<int>::empty().push(width_spec(b)).push(GAP_WIDTH as int));
        lemma_sum_push(Seq::empty(), width_spec(b));
        lemma_sum_push(Seq::<int>::empty().push(width_spec(b)), GAP_WIDTH as int);
        lemma_sum_concat(head, measure_forest(b.children));
    }
}


proof fn lemma_totals_one(b: BoxModel)
    ensures
        box_total(seq![b]) == tree_total(b),
        chars_total(seq![b]) == tree_chars(b),
{
    assert(seq![b].drop_last() =~= Seq::<BoxModel>::empty());
    assert(box_total(Seq::<BoxModel>::empty()) == 0);
    assert(chars_total(Seq::<BoxModel>::empty()) == 0);
    assert(seq![b].last() == b);
}

/// A box that fits holds a label that fits, and children that fit.
proof fn lemma_fits_one(b: BoxModel)
    requires
        layout_fits(seq![b]),
    ensures
        b.label.len() <= LAYOUT_LIMIT,
        layout_fits(b.children),
{
    lemma_totals_one(b);
}

proof fn lemma_totals_take(bs: Seq<BoxModel>, i: int)
    requires
        0 <= i <= bs.len(),
    ensures
        box_total(bs.take(i)) <= box_total(bs),
        chars_total(bs.take(i)) <= chars_total(bs),
    decreases bs.len(),
{
    if i < bs.len() {
        assert(bs.take(i) =~= bs.drop_last().take(i));
        lemma_totals_take(bs.drop_last(), i);
    } else {
        assert(bs.take(i) =~= bs);
    }
}

/// Every box of a forest that fits fits on its own.
proof fn lemma_fits_element_model(bs: Seq<BoxModel>, i: int)
    requires
        layout_fits(bs),
        0 <= i < bs.len(),
    ensures
        layout_fits(seq![bs[i]]),
{
    lemma_totals_take(bs, i + 1);
    let t = bs.take(i + 1);
    assert(t.last() == bs[i]);
    lemma_totals_one(bs[i]);
}

proof fn lemma_fits_element(ns: Seq<Node>, i: int)
    requires
        layout_fits(models(ns)),
        0 <= i < ns.len(),
    ensures
        layout_fits(seq![model(ns[i])]),
{
    lemma_models(ns);
    lemma_fits_element_model(models(ns), i);
}

/// What a forest weighs against the layout's limit: its label characters,
/// and eleven for every box.
pub open spec fn weight(bs: Seq<BoxModel>) -> int {
    (chars_total(bs) + 11 * box_total(bs)) as int
}

/// A weight, or one past the limit for any weight beyond it.
pub open spec fn capped(w: int) -> int {
    if w <= LAYOUT_LIMIT {
        w
    } else {
        LAYOUT_LIMIT + 1
    }
}

proof fn lemma_weight_push(bs: Seq<BoxModel>, b: BoxModel)
    ensures
        weight(bs.push(b)) == weight(bs) + b.label.len() + 11 + weight(b.children),
{
    assert(bs.push(b).drop_last() =~= bs);
    assert(chars_total(bs.push(b)) == chars_total(bs) + tree_chars(b));
    assert(box_total(bs.push(b)) == box_total(bs) + tree_total(b));
}

fn capped_weight(nodes: &Vec<Node>) -> (r: u64)
    ensures
        r == capped(weight(models(nodes@))),
    decreases nodes,
{
    let mut total: u64 = 0;
    let mut i: usize = 0;
    proof {
        assert(nodes@.take(0) =~= Seq::<Node>::empty());
        assert(models(Seq::<Node>::empty()) =~= Seq::<BoxModel>::empty());
    }
    while i < nodes.len()
        invariant
            i <= nodes.len(),
            total == capped(weight(models(nodes@.take(i as int)))),
        decreases nodes.len() - i,
    {
        proof {
            assert(decreases_to!(nodes => nodes@));
            assert(decreases_to!(nodes@ => nodes@[i as int]));
            let t = nodes@.take(i as int);
            assert(t.push(nodes@[i as int]) =~= nodes@.take(i + 1));
            crate::diagram::lemma_models_push(t, nodes@[i as int]);
            lemma_weight_push(models(t), model(nodes@[i as int]));
        }
        let below = capped_weight(&nodes[i].children);
        let n = nodes[i].label.unicode_len();
        let own: u64 = if n as u64 > LAYOUT_LIMIT as u64 {
            LAYOUT_LIMIT as u64 + 1
        } else {
            n as u64
        };
        let sum = total + own + 11 + below;
        total = if sum > LAYOUT_LIMIT as u64 {
            LAYOUT_LIMIT as u64 + 1
        } else {
            sum
        };
        i = i + 1;
    }
    proof {
        assert(nodes@.take(i as int) =~= nodes@);
    }
    total
}

/// Whether the layout takes on a forest.
pub fn fits(boxes: &Vec<Node>) -> (r: bool)
    ensures
        r == layout_fits(models(boxes@)),
{
    let w = capped_weight(boxes);
    w <= LAYOUT_LIMIT as u64 && w <= usize::MAX as u64
}

/// How many cells a label takes inside its box.
pub fn interior(label: &str) -> (r: i64)
    requires
        label@.len() <= LAYOUT_LIMIT,
    ensures
        r == interior_spec(label@),
{
    let n = label.unicode_len();
    if n == 0 {
        1
    } else {
        n as i64
    }
}

/// How wide a box is: its label and a border on each side.
pub fn width(node: &Node) -> (r: i64)
    requires
        node.label@.len() <= LAYOUT_LIMIT,
    ensures
        r == width_spec(model(*node)),
{
    interior(node.label.as_str()) + BORDERS
}

/// How tall a box is: always one row of text between two borders.
pub fn height(node: &Node) -> (r: i64)
    ensures
        r == BOX_HEIGHT,
{
    BOX_HEIGHT
}

/// Where a label starts inside a box `width` wide.
pub fn centre(width: i64, label: &str) -> (r: i64)
    requires
        label@.len() <= LAYOUT_LIMIT,
        -LAYOUT_LIMIT <= width <= 4 * LAYOUT_LIMIT,
    ensures
        r == centre_spec(width as int, label@),
{
    let leftover: i64 = width - BORDERS - interior(label);
    let half: i64 = if leftover >= 0 {
        (leftover as u64 / 2) as i64
    } else {
        let up: u64 = ((-leftover) as u64 + 1) / 2;
        -(up as i64)
    };
    1 + leftover - half
}



/// A label placed in a box, and the path of that box from the top.
#[derive(Debug, PartialEq)]
pub struct Label<'a> {
    pub text: &'a str,
    pub path: Vec<usize>,
}

/// The arrows out of a parent: one stop per child, relative to the first
/// child's midline, and the row of the shaft from the parent.
#[derive(Debug, PartialEq)]
pub struct Arrow {
    pub stops: Vec<i64>,
    pub shaft: i64,
}

/// The caret after the selected box's label.
#[derive(Debug, PartialEq)]
pub struct Cursor;

/// What is drawn at a placement.
#[derive(Debug, PartialEq)]
pub enum PlacementNode<'a> {
    Box { colour: Option<u8>, fill: Option<u8>, rounded: bool },
    Label(Label<'a>),
    Arrow(Arrow),
    Cursor(Cursor),
}

/// Something drawn in a rectangle of cells.
#[derive(Debug, PartialEq)]
pub struct Placement<'a> {
    pub node: PlacementNode<'a>,
    pub x: i64,
    pub y: i64,
    pub width: i64,
    pub height: i64,
}

pub enum PlacementNodeModel {
    Box { colour: Option<u8>, fill: Option<u8>, rounded: bool },
    Label { text: Seq<char>, path: Seq<usize> },
    Arrow { stops: Seq<int>, shaft: int },
    Cursor,
}

pub struct PlacementModel {
    pub node: PlacementNodeModel,
    pub x: int,
    pub y: int,
    pub width: int,
    pub height: int,
}

impl<'a> View for PlacementNode<'a> {
    type V = PlacementNodeModel;

    open spec fn view(&self) -> PlacementNodeModel {
        match self {
            PlacementNode::Box { colour, fill, rounded } => PlacementNodeModel::Box {
                colour: *colour,
                fill: *fill,
                rounded: *rounded,
            },
            PlacementNode::Label(l) => PlacementNodeModel::Label { text: l.text@, path: l.path@ },
            PlacementNode::Arrow(a) => PlacementNodeModel::Arrow {
                stops: ints(a.stops@),
                shaft: a.shaft as int,
            },
            PlacementNode::Cursor(_) => PlacementNodeModel::Cursor,
        }
    }
}

impl<'a> View for Placement<'a> {
    type V = PlacementModel;

    open spec fn view(&self) -> PlacementModel {
        PlacementModel {
            node: self.node@,
            x: self.x as int,
            y: self.y as int,
            width: self.width as int,
            height: self.height as int,
        }
    }
}

pub open spec fn views<'a>(ps: Seq<Placement<'a>>) -> Seq<PlacementModel> {
    ps.map_values(|p: Placement<'a>| p@)
}

fn copy_stops(v: &Vec<i64>) -> (r: Vec<i64>)
    ensures
        r@ == v@,
{
    let mut r: Vec<i64> = Vec::new();
    let mut i: usize = 0;
    while i < v.len()
        invariant
            i <= v.len(),
            r@ == v@.take(i as int),
        decreases v.len() - i,
    {
        r.push(v[i]);
        i = i + 1;
        proof {
            assert(r@ =~= v@.take(i as int));
        }
    }
    proof {
        assert(v@.take(i as int) =~= v@);
    }
    r
}

impl<'a> Clone for PlacementNode<'a> {
    fn clone(&self) -> (r: Self)
        ensures
            r@ == self@,
    {
        match self {
            PlacementNode::Box { colour, fill, rounded } => PlacementNode::Box {
                colour: *colour,
                fill: *fill,
                rounded: *rounded,
            },
            PlacementNode::Label(l) => PlacementNode::Label(
                Label { text: l.text, path: crate::diagram::copy_indices(&l.path) },
            ),
            PlacementNode::Arrow(a) => PlacementNode::Arrow(
                Arrow { stops: copy_stops(&a.stops), shaft: a.shaft },
            ),
            PlacementNode::Cursor(_) => PlacementNode::Cursor(Cursor),
        }
    }
}

impl<'a> Clone for Placement<'a> {
    fn clone(&self) -> (r: Self)
        ensures
            r@ == self@,
    {
        Placement {
            node: self.node.clone(),
            x: self.x,
            y: self.y,
            width: self.width,
            height: self.height,
        }
    }
}

/// How many leaves a box has under it, counting a leaf as its own.
pub open spec fn leaves(b: BoxModel) -> nat
    decreases b,
{
    if b.children.len() == 0 {
        1
    } else {
        leaf_count(b.children)
    }
}

pub open spec fn leaf_count(bs: Seq<BoxModel>) -> nat
    decreases bs,
{
    if bs.len() == 0 {
        0
    } else {
        leaf_count(bs.drop_last()) + leaves(bs.last())
    }
}

/// How many box columns a tree reaches across.
pub open spec fn tree_depth(b: BoxModel) -> nat
    decreases b,
{
    if b.children.len() == 0 {
        1
    } else {
        1 + forest_depth(b.children)
    }
}

pub open spec fn forest_depth(bs: Seq<BoxModel>) -> nat
    decreases bs,
{
    if bs.len() == 0 {
        0
    } else {
        let a = forest_depth(bs.drop_last());
        let b = tree_depth(bs.last());
        if a >= b {
            a
        } else {
            b
        }
    }
}

/// The row of a parent: the middle child's row when there is one, else one
/// past the row of the child just before the middle.
pub open spec fn median(rows: Seq<int>) -> int {
    let middle = rows.len() / 2;
    if rows.len() % 2 == 1 {
        rows[middle as int]
    } else {
        rows[middle - 1] + 1
    }
}

/// The row of a box whose first leaf takes row `start`.
pub open spec fn tree_row(b: BoxModel, start: int) -> int
    decreases b,
{
    if b.children.len() == 0 {
        start
    } else {
        median(child_rows(b.children, start))
    }
}

/// The rows of the boxes of a forest whose first leaf takes row `start`;
/// each leaf takes two rows.
pub open spec fn child_rows(bs: Seq<BoxModel>, start: int) -> Seq<int>
    decreases bs,
{
    if bs.len() == 0 {
        Seq::empty()
    } else {
        child_rows(bs.drop_last(), start).push(
            tree_row(bs.last(), start + 2 * leaf_count(bs.drop_last())),
        )
    }
}

/// The placements of one box: its box, its label, and the arrows to its
/// children when it has any.
pub open spec fn emit_spec(
    b: BoxModel,
    x: int,
    row: int,
    width: int,
    path: Seq<usize>,
    rows: Seq<int>,
) -> Seq<PlacementModel> {
    let y = row * HALF_PITCH;
    let frame = PlacementModel {
        node: PlacementNodeModel::Box {
            colour: b.colour,
            fill: if b.filled {
                b.colour
            } else {
                None
            },
            rounded: b.rounded,
        },
        x,
        y,
        width,
        height: BOX_HEIGHT as int,
    };
    let label = PlacementModel {
        node: PlacementNodeModel::Label { text: b.label, path },
        x: x + centre_spec(width, b.label),
        y: y + 1,
        width: interior_spec(b.label),
        height: 1,
    };
    if rows.len() == 0 {
        seq![frame, label]
    } else {
        let origin = rows[0] * HALF_PITCH + 1;
        let stops = Seq::new(rows.len(), |j: int| rows[j] * HALF_PITCH + 1 - origin);
        let arrow = PlacementModel {
            node: PlacementNodeModel::Arrow { stops, shaft: y + 1 - origin },
            x: x + width,
            y: origin,
            width: GAP_WIDTH as int,
            height: stops[stops.len() - 1] - stops[0] + 1,
        };
        seq![frame, label, arrow]
    }
}

/// The placements of a box at `depth` and of everything under it, its own
/// first, then each child's in order.
pub open spec fn tree_places(
    b: BoxModel,
    depth: nat,
    path: Seq<usize>,
    offsets: Seq<int>,
    start: int,
) -> Seq<PlacementModel>
    decreases b,
{
    let col: int = 2 * depth as int;
    let rows = if b.children.len() == 0 {
        Seq::empty()
    } else {
        child_rows(b.children, start)
    };
    emit_spec(b, offsets[col], tree_row(b, start), offsets[col + 1] - offsets[col], path, rows)
        + forest_places(b.children, depth + 1, path, offsets, start)
}

/// The placements of a forest whose boxes sit at `depth` under `parent`.
pub open spec fn forest_places(
    bs: Seq<BoxModel>,
    depth: nat,
    parent: Seq<usize>,
    offsets: Seq<int>,
    start: int,
) -> Seq<PlacementModel>
    decreases bs,
{
    if bs.len() == 0 {
        Seq::empty()
    } else {
        forest_places(bs.drop_last(), depth, parent, offsets, start) + tree_places(
            bs.last(),
            depth,
            parent.push((bs.len() - 1) as usize),
            offsets,
            start + 2 * leaf_count(bs.drop_last()),
        )
    }
}

/// Every coordinate and size of a placement lies within `-b ..= b`.
pub open spec fn within(p: PlacementModel, b: int) -> bool {
    &&& -b <= p.x <= b
    &&& -b <= p.y <= b
    &&& -b <= p.width <= b
    &&& -b <= p.height <= b
}

pub open spec fn all_within(ps: Seq<PlacementModel>, b: int) -> bool {
    forall|i: int| 0 <= i < ps.len() ==> within(#[trigger] ps[i], b)
}

/// Every coordinate and size well inside what an `i64` holds.
pub open spec fn bounded(p: PlacementModel) -> bool {
    within(p, 8 * LAYOUT_LIMIT)
}

pub open spec fn all_bounded(ps: Seq<PlacementModel>) -> bool {
    forall|i: int| 0 <= i < ps.len() ==> bounded(#[trigger] ps[i])
}

/// Column offsets from the left edge, none negative and none far out.
pub open spec fn offsets_ok(offsets: Seq<int>) -> bool {
    forall|i: int| 0 <= i < offsets.len() ==> 0 <= #[trigger] offsets[i] <= LAYOUT_LIMIT
}


proof fn lemma_leaf_count_step(bs: Seq<BoxModel>, j: int)
    requires
        0 <= j < bs.len(),
    ensures
        leaf_count(bs.take(j + 1)) == leaf_count(bs.take(j)) + leaves(bs[j]),
{
    assert(bs.take(j + 1).drop_last() =~= bs.take(j));
}

/// Every box has a leaf, and no more leaves than boxes.
pub proof fn lemma_leaves(b: BoxModel)
    ensures
        1 <= leaves(b) <= tree_total(b),
    decreases b,
{
    if b.children.len() > 0 {
        lemma_leaf_count(b.children);
    }
}

pub proof fn lemma_leaf_count(bs: Seq<BoxModel>)
    ensures
        bs.len() <= leaf_count(bs) <= box_total(bs),
    decreases bs,
{
    if bs.len() > 0 {
        lemma_leaf_count(bs.drop_last());
        lemma_leaves(bs.last());
    }
}

/// A box's row lies between its first and its last leaf's.
pub proof fn lemma_row_bounds(b: BoxModel, start: int)
    ensures
        start <= tree_row(b, start) <= start + 2 * leaves(b) - 2,
    decreases b,
{
    lemma_leaves(b);
    if b.children.len() > 0 {
        let cs = b.children;
        let rows = child_rows(cs, start);
        lemma_child_rows(cs, start);
        let n = cs.len();
        let m = n / 2;
        assert(cs.take(0) =~= Seq::<BoxModel>::empty());
        assert(cs.take(n as int) =~= cs);
        if n % 2 == 0 {
            assert(rows[m - 1] + 1 <= rows[m as int]) by {
                lemma_leaf_count_step(cs, m - 1);
                lemma_leaves(cs[m - 1]);
            }
        }
        assert(rows[m as int] <= rows[n - 1]) by {
            if m < n - 1 {
                lemma_take_monotone(cs, m as int + 1, n - 1);
            }
        }
    }
}

proof fn lemma_take_monotone(bs: Seq<BoxModel>, i: int, j: int)
    requires
        0 <= i <= j <= bs.len(),
    ensures
        leaf_count(bs.take(i)) <= leaf_count(bs.take(j)),
    decreases j - i,
{
    if i < j {
        lemma_take_monotone(bs, i, j - 1);
        lemma_leaf_count_step(bs, j - 1);
    }
}

/// Each child's row lies between its first and its last leaf's.
pub proof fn lemma_child_rows(bs: Seq<BoxModel>, start: int)
    ensures
        child_rows(bs, start).len() == bs.len(),
        forall|j: int|
            0 <= j < bs.len() ==> start + 2 * leaf_count(bs.take(j)) <= #[trigger] child_rows(
                bs,
                start,
            )[j] <= start + 2 * leaf_count(bs.take(j + 1)) - 2,
    decreases bs,
{
    if bs.len() > 0 {
        let d = bs.drop_last();
        let n = bs.len();
        lemma_child_rows(d, start);
        lemma_row_bounds(bs.last(), start + 2 * leaf_count(d));
        assert forall|j: int| 0 <= j < bs.len() implies start + 2 * leaf_count(bs.take(j))
            <= #[trigger] child_rows(bs, start)[j] <= start + 2 * leaf_count(bs.take(j + 1))
            - 2 by {
            if j < n - 1 {
                assert(bs.take(j) =~= d.take(j));
                assert(bs.take(j + 1) =~= d.take(j + 1));
            } else {
                assert(bs.take(j) =~= d);
                assert(bs.take(j + 1) =~= bs);
            }
        }
    }
}


pub open spec fn rows_view(v: Seq<usize>) -> Seq<int> {
    v.map_values(|r: usize| r as int)
}

proof fn lemma_views_concat<'a>(a: Seq<Placement<'a>>, b: Seq<Placement<'a>>)
    ensures
        views(a + b) == views(a) + views(b),
{
    assert(views(a + b) =~= views(a) + views(b));
}

proof fn lemma_bounded_concat(a: Seq<PlacementModel>, b: Seq<PlacementModel>)
    requires
        all_bounded(a),
        all_bounded(b),
    ensures
        all_bounded(a + b),
{
    assert forall|k: int| 0 <= k < (a + b).len() implies bounded(#[trigger] (a + b)[k]) by {
        if k < a.len() {
            assert((a + b)[k] == a[k]);
        } else {
            assert((a + b)[k] == b[k - a.len()]);
        }
    }
}

proof fn lemma_depth_element(bs: Seq<BoxModel>, i: int)
    requires
        0 <= i < bs.len(),
    ensures
        tree_depth(bs[i]) <= forest_depth(bs),
    decreases bs.len(),
{
    if i < bs.len() - 1 {
        lemma_depth_element(bs.drop_last(), i);
        assert(bs.drop_last()[i] == bs[i]);
    }
}

/// The placements of one box: its box, its label, and the arrows to its
/// children's rows when it has any.
fn emit<'a>(
    node: &'a Node,
    x: i64,
    row: usize,
    width: i64,
    path: Vec<usize>,
    child_rows: &Vec<usize>,
) -> (r: Vec<Placement<'a>>)
    requires
        node.label@.len() <= LAYOUT_LIMIT,
        0 <= x <= LAYOUT_LIMIT,
        -LAYOUT_LIMIT <= width <= LAYOUT_LIMIT,
        row <= LAYOUT_LIMIT,
        forall|j: int| 0 <= j < child_rows@.len() ==> #[trigger] child_rows@[j] <= LAYOUT_LIMIT,
    ensures
        views(r@) == emit_spec(
            model(*node),
            x as int,
            row as int,
            width as int,
            path@,
            rows_view(child_rows@),
        ),
        all_bounded(views(r@)),
{
    let ghost b = model(*node);
    let y: i64 = row as i64 * HALF_PITCH;
    let fill = if node.filled {
        node.colour
    } else {
        None
    };
    let frame = Placement {
        node: PlacementNode::Box { colour: node.colour, fill, rounded: node.rounded },
        x,
        y,
        width,
        height: BOX_HEIGHT,
    };
    let text = node.label.as_str();
    let start = x + centre(width, text);
    let label = Placement {
        node: PlacementNode::Label(Label { text, path }),
        x: start,
        y: y + BOX_HEIGHT / 2,
        width: interior(text),
        height: 1,
    };
    let mut placements: Vec<Placement<'a>> = Vec::new();
    placements.push(frame);
    placements.push(label);
    if child_rows.len() > 0 {
        let origin: i64 = child_rows[0] as i64 * HALF_PITCH + BOX_HEIGHT / 2;
        let mut stops: Vec<i64> = Vec::new();
        let mut j: usize = 0;
        while j < child_rows.len()
            invariant
                j <= child_rows.len(),
                origin == child_rows@[0] * HALF_PITCH + 1,
                child_rows@.len() > 0,
                forall|k: int| 0 <= k < child_rows@.len() ==> #[trigger] child_rows@[k] <= LAYOUT_LIMIT,
                stops@.len() == j,
                forall|k: int|
                    0 <= k < j ==> #[trigger] stops@[k] == child_rows@[k] * HALF_PITCH + 1 - origin,
            decreases child_rows.len() - j,
        {
            stops.push(child_rows[j] as i64 * HALF_PITCH + BOX_HEIGHT / 2 - origin);
            j = j + 1;
        }
        let last = stops[stops.len() - 1];
        let first = stops[0];
        let shaft = y + BOX_HEIGHT / 2 - origin;
        let arrow = Placement {
            node: PlacementNode::Arrow(Arrow { stops, shaft }),
            x: x + width,
            y: origin,
            width: GAP_WIDTH,
            height: last - first + 1,
        };
        placements.push(arrow);
        proof {
            let rows = rows_view(child_rows@);
            let expected = emit_spec(b, x as int, row as int, width as int, path@, rows);
            assert(ints(stops@) =~= Seq::new(
                rows.len(),
                |k: int| rows[k] * HALF_PITCH + 1 - (rows[0] * HALF_PITCH + 1),
            ));
            assert(views(placements@) =~= expected);
        }
    } else {
        proof {
            assert(views(placements@) =~= emit_spec(
                b,
                x as int,
                row as int,
                width as int,
                path@,
                rows_view(child_rows@),
            ));
        }
    }
    placements
}

fn median_row(rows: &Vec<usize>) -> (r: usize)
    requires
        rows@.len() > 0,
        forall|j: int| 0 <= j < rows@.len() ==> #[trigger] rows@[j] < row_room(),
    ensures
        r == median(rows_view(rows@)),
{
    let middle = rows.len() / 2;
    if rows.len() % 2 == 1 {
        rows[middle]
    } else {
        rows[middle - 1] + 1
    }
}

/// Places a box at `depth`, reached by `path`, and everything under it; its
/// first leaf takes row `*free`, and `*free` moves past its last leaf.
fn visit<'a>(
    node: &'a Node,
    depth: usize,
    path: Vec<usize>,
    offsets: &Vec<i64>,
    free: &mut usize,
) -> (r: (Vec<Placement<'a>>, usize))
    requires
        layout_fits(seq![model(*node)]),
        offsets_ok(ints(offsets@)),
        2 * (depth + tree_depth(model(*node))) <= offsets@.len(),
        *old(free) + 2 * tree_total(model(*node)) <= row_room(),
    ensures
        views(r.0@) == tree_places(
            model(*node),
            depth as nat,
            path@,
            ints(offsets@),
            *old(free) as int,
        ),
        all_bounded(views(r.0@)),
        r.1 == tree_row(model(*node), *old(free) as int),
        *final(free) == *old(free) + 2 * leaves(model(*node)),
    decreases node,
{
    let ghost b = model(*node);
    let ghost start = *free as int;
    proof {
        lemma_fits_one(b);
        lemma_totals_one(b);
        lemma_leaves(b);
        lemma_row_bounds(b, start);
        assert(tree_depth(b) >= 1);
        assert(2 * depth + 1 < offsets@.len());
        assert(ints(offsets@)[2 * depth as int] == offsets@[2 * depth as int] as int);
        assert(ints(offsets@)[2 * depth + 1] == offsets@[2 * depth + 1] as int);
    }
    let columns = offsets.len();
    assert(2 * depth + 1 < columns);
    let x = offsets[2 * depth];
    let width = offsets[2 * depth + 1] - x;
    if node.children.len() == 0 {
        let row = *free;
        *free = *free + 2;
        let no_rows: Vec<usize> = Vec::new();
        let placements = emit(node, x, row, width, path, &no_rows);
        proof {
            assert(rows_view(no_rows@) =~= Seq::<int>::empty());
            assert(models(node.children@) =~= Seq::<BoxModel>::empty());
            assert(views(placements@) =~= tree_places(b, depth as nat, path@, ints(offsets@), start));
        }
        (placements, row)
    } else {
        proof {
            assert(decreases_to!(node => node.children));
        }
        let (mut below, rows) = visit_forest(&node.children, depth + 1, &path, offsets, free);
        proof {
            let cs = b.children;
            lemma_child_rows(cs, start);
            lemma_leaf_count(cs);
            assert forall|j: int| 0 <= j < rows@.len() implies #[trigger] rows@[j] < row_room() by {
                assert(rows_view(rows@)[j] == rows@[j] as int);
                lemma_take_monotone(cs, j + 1, cs.len() as int);
                assert(cs.take(cs.len() as int) =~= cs);
            }
        }
        let row = median_row(&rows);
        let mut placements = emit(node, x, row, width, path, &rows);
        let ghost own = placements@;
        let ghost rest = below@;
        placements.append(&mut below);
        proof {
            lemma_views_concat(own, rest);
            lemma_bounded_concat(views(own), views(rest));
        }
        (placements, row)
    }
}

/// Places a forest at `depth` under the box at `parent`; its first leaf
/// takes row `*free`, and `*free` moves past its last leaf.
fn visit_forest<'a>(
    nodes: &'a Vec<Node>,
    depth: usize,
    parent: &Vec<usize>,
    offsets: &Vec<i64>,
    free: &mut usize,
) -> (r: (Vec<Placement<'a>>, Vec<usize>))
    requires
        layout_fits(models(nodes@)),
        offsets_ok(ints(offsets@)),
        2 * (depth + forest_depth(models(nodes@))) <= offsets@.len(),
        *old(free) + 2 * box_total(models(nodes@)) <= row_room(),
    ensures
        views(r.0@) == forest_places(
            models(nodes@),
            depth as nat,
            parent@,
            ints(offsets@),
            *old(free) as int,
        ),
        all_bounded(views(r.0@)),
        rows_view(r.1@) == child_rows(models(nodes@), *old(free) as int),
        *final(free) == *old(free) + 2 * leaf_count(models(nodes@)),
    decreases nodes,
{
    let ghost ms = models(nodes@);
    let ghost start = *free as int;
    let ghost offs = ints(offsets@);
    proof {
        lemma_models(nodes@);
    }
    let mut placements: Vec<Placement<'a>> = Vec::new();
    let mut rows: Vec<usize> = Vec::new();
    let mut i: usize = 0;
    proof {
        assert(ms.take(0) =~= Seq::<BoxModel>::empty());
        assert(views(placements@) =~= Seq::<PlacementModel>::empty());
        assert(rows_view(rows@) =~= Seq::<int>::empty());
    }
    while i < nodes.len()
        invariant
            i <= nodes.len(),
            ms == models(nodes@),
            ms.len() == nodes@.len(),
            forall|j: int| 0 <= j < nodes@.len() ==> #[trigger] ms[j] == model(nodes@[j]),
            offs == ints(offsets@),
            layout_fits(ms),
            offsets_ok(offs),
            2 * (depth + forest_depth(ms)) <= offsets@.len(),
            start + 2 * box_total(ms) <= row_room(),
            *free == start + 2 * leaf_count(ms.take(i as int)),
            views(placements@) == forest_places(ms.take(i as int), depth as nat, parent@, offs, start),
            all_bounded(views(placements@)),
            rows_view(rows@) == child_rows(ms.take(i as int), start),
        decreases nodes.len() - i,
    {
        proof {
            assert(decreases_to!(nodes => nodes@));
            assert(decreases_to!(nodes@ => nodes@[i as int]));
            lemma_fits_element(nodes@, i as int);
            lemma_depth_element(ms, i as int);
            lemma_totals_take(ms, i + 1);
            lemma_leaf_count(ms.take(i as int));
            assert(ms.take(i + 1).drop_last() =~= ms.take(i as int));
            assert(ms.take(i + 1).last() == ms[i as int]);
        }
        let mut path = crate::diagram::copy_indices(parent);
        path.push(i);
        let (mut ps, row) = visit(&nodes[i], depth, path, offsets, free);
        let ghost before = placements@;
        let ghost added = ps@;
        placements.append(&mut ps);
        let ghost rows_before = rows@;
        rows.push(row);
        proof {
            lemma_views_concat(before, added);
            lemma_bounded_concat(views(before), views(added));
            assert(parent@.push(i) =~= parent@.push((ms.take(i + 1).len() - 1) as usize));
            assert(rows_view(rows@) =~= rows_view(rows_before).push(row as int));
        }
        i = i + 1;
    }
    proof {
        assert(ms.take(i as int) =~= ms);
    }
    (placements, rows)
}

/// Places every box, label and arrow of a forest, given each column's left
/// edge, with one more entry for the right edge of the last column.
pub fn place<'a>(boxes: &'a Vec<Node>, offsets: &Vec<i64>) -> (r: Vec<Placement<'a>>)
    requires
        layout_fits(models(boxes@)),
        offsets_ok(ints(offsets@)),
        2 * forest_depth(models(boxes@)) <= offsets@.len(),
    ensures
        views(r@) == forest_places(models(boxes@), 0, Seq::empty(), ints(offsets@), 0),
        all_bounded(views(r@)),
{
    let mut free: usize = 0;
    let top: Vec<usize> = Vec::new();
    proof {
        assert(top@ =~= Seq::<usize>::empty());
    }
    let (placements, _) = visit_forest(boxes, 0, &top, offsets, &mut free);
    placements
}


/// A forest has as many columns as twice its depth, less the gap after the
/// deepest column.
pub proof fn lemma_measure_len(bs: Seq<BoxModel>)
    ensures
        measure_forest(bs).len() == if bs.len() == 0 {
            0
        } else {
            2 * forest_depth(bs) - 1
        },
        bs.len() > 0 ==> forest_depth(bs) >= 1,
    decreases bs,
{
    if bs.len() > 0 {
        lemma_measure_len(bs.drop_last());
        lemma_measure_tree_len(bs.last());
    }
}

proof fn lemma_measure_tree_len(b: BoxModel)
    ensures
        measure_tree(b).len() == 2 * tree_depth(b) - 1,
        tree_depth(b) >= 1,
    decreases b,
{
    lemma_measure_len(b.children);
}

/// Each column's left edge, and the right edge of the last.
pub open spec fn prefix_offsets(w: Seq<int>) -> Seq<int> {
    Seq::new(w.len() + 1, |i: int| seq_sum(w.take(i)))
}

pub open spec fn box_filter() -> spec_fn(PlacementModel) -> bool {
    |p: PlacementModel| p.node is Box
}

pub open spec fn rest_filter() -> spec_fn(PlacementModel) -> bool {
    |p: PlacementModel| !(p.node is Box)
}

/// The layout of a forest: every placement, the boxes first, each group in
/// the order that the boxes are visited.
pub open spec fn diagram_spec(bs: Seq<BoxModel>) -> Seq<PlacementModel> {
    if bs.len() == 0 {
        Seq::empty()
    } else {
        let ps = forest_places(bs, 0, Seq::empty(), prefix_offsets(measure_forest(bs)), 0);
        ps.filter(box_filter()) + ps.filter(rest_filter())
    }
}

proof fn lemma_sum_take(s: Seq<int>, i: int, j: int)
    requires
        nonneg(s),
        0 <= i <= j <= s.len(),
    ensures
        0 <= seq_sum(s.take(i)) <= seq_sum(s.take(j)),
    decreases j - i,
{
    if i < j {
        lemma_sum_take(s, i, j - 1);
        assert(s.take(j).drop_last() =~= s.take(j - 1));
    } else {
        lemma_sum_nonneg(s.take(i));
    }
}

/// Lays out a forest: boxes first, then labels and arrows.
pub fn diagram<'a>(boxes: &'a Vec<Node>) -> (r: Vec<Placement<'a>>)
    requires
        layout_fits(models(boxes@)),
    ensures
        views(r@) == diagram_spec(models(boxes@)),
        all_bounded(views(r@)),
{
    let ghost bs = models(boxes@);
    if boxes.len() == 0 {
        proof {
            assert(bs =~= Seq::<BoxModel>::empty());
        }
        let r: Vec<Placement<'a>> = Vec::new();
        proof {
            assert(views(r@) =~= Seq::<PlacementModel>::empty());
        }
        return r;
    }
    let widths = measure_columns(boxes);
    let ghost w = ints(widths@);
    proof {
        lemma_measure_bound(bs);
        lemma_measure_len(bs);
        lemma_models(boxes@);
        assert(w.take(w.len() as int) =~= w);
    }
    let mut offsets: Vec<i64> = Vec::new();
    let mut offset: i64 = 0;
    let mut i: usize = 0;
    while i < widths.len()
        invariant
            i <= widths.len(),
            w == ints(widths@),
            w == measure_forest(bs),
            nonneg(w),
            seq_sum(w) <= LAYOUT_LIMIT,
            offset == seq_sum(w.take(i as int)),
            offsets@.len() == i,
            forall|k: int| 0 <= k < i ==> #[trigger] offsets@[k] == seq_sum(w.take(k)),
        decreases widths.len() - i,
    {
        proof {
            lemma_sum_take(w, i as int, w.len() as int);
            lemma_sum_take(w, i + 1, w.len() as int);
            assert(w.take(i + 1).drop_last() =~= w.take(i as int));
            assert(w[i as int] == widths@[i as int] as int);
            assert(w.take(i + 1).last() == w[i as int]);
            assert(w.take(w.len() as int) =~= w);
        }
        offsets.push(offset);
        offset = offset + widths[i];
        i = i + 1;
    }
    offsets.push(offset);
    proof {
        let po = prefix_offsets(w);
        assert(ints(offsets@) =~= po);
        assert forall|k: int| 0 <= k < po.len() implies 0 <= #[trigger] po[k] <= LAYOUT_LIMIT by {
            lemma_sum_take(w, k, w.len() as int);
        }
    }
    let placements = place(boxes, &offsets);
    let ghost ps = views(placements@);
    let mut firsts: Vec<Placement<'a>> = Vec::new();
    let mut rest: Vec<Placement<'a>> = Vec::new();
    let mut j: usize = 0;
    proof {
        assert(ps.take(0) =~= Seq::<PlacementModel>::empty());
        reveal(Seq::filter);
        assert(views(firsts@) =~= ps.take(0).filter(box_filter()));
        assert(views(rest@) =~= ps.take(0).filter(rest_filter()));
    }
    while j < placements.len()
        invariant
            j <= placements.len(),
            ps == views(placements@),
            all_bounded(ps),
            views(firsts@) == ps.take(j as int).filter(box_filter()),
            views(rest@) == ps.take(j as int).filter(rest_filter()),
            all_bounded(views(firsts@)),
            all_bounded(views(rest@)),
        decreases placements.len() - j,
    {
        let p = placements[j].clone();
        proof {
            assert(ps.take(j + 1) =~= ps.take(j as int).push(ps[j as int]));
            ps.take(j as int).lemma_filter_push(ps[j as int], box_filter());
            ps.take(j as int).lemma_filter_push(ps[j as int], rest_filter());
            assert(bounded(ps[j as int]));
        }
        let ghost fb = firsts@;
        let ghost rb = rest@;
        let is_box = match &p.node {
            PlacementNode::Box { .. } => true,
            _ => false,
        };
        if is_box {
            firsts.push(p);
            proof {
                assert(views(firsts@) =~= views(fb).push(ps[j as int]));
            }
        } else {
            rest.push(p);
            proof {
                assert(views(rest@) =~= views(rb).push(ps[j as int]));
            }
        }
        j = j + 1;
    }
    proof {
        assert(ps.take(j as int) =~= ps);
    }
    let ghost f = firsts@;
    let ghost t = rest@;
    firsts.append(&mut rest);
    proof {
        lemma_views_concat(f, t);
        lemma_bounded_concat(views(f), views(t));
    }
    firsts
}

/// What is drawn at a placement stays drawable: boxes in palette colours,
/// labels no longer than the layout takes on, and arrows with a stop for
/// each child, none of them far out.
pub open spec fn content_ok(p: PlacementModel) -> bool {
    match p.node {
        PlacementNodeModel::Box { colour, fill, .. } => colour_ok(colour) && colour_ok(fill),
        PlacementNodeModel::Label { text, .. } => text.len() <= LAYOUT_LIMIT,
        PlacementNodeModel::Arrow { stops, shaft } => {
            &&& stops.len() > 0
            &&& -8 * LAYOUT_LIMIT <= shaft <= 8 * LAYOUT_LIMIT
            &&& forall|j: int| 0 <= j < stops.len() ==> -8 * LAYOUT_LIMIT <= #[trigger] stops[j] <= 8 * LAYOUT_LIMIT
        },
        PlacementNodeModel::Cursor => true,
    }
}

pub open spec fn all_content_ok(ps: Seq<PlacementModel>) -> bool {
    forall|i: int| 0 <= i < ps.len() ==> content_ok(#[trigger] ps[i])
}

proof fn lemma_content_concat(a: Seq<PlacementModel>, b: Seq<PlacementModel>)
    requires
        all_content_ok(a),
        all_content_ok(b),
    ensures
        all_content_ok(a + b),
{
    assert forall|k: int| 0 <= k < (a + b).len() implies content_ok(#[trigger] (a + b)[k]) by {
        if k < a.len() {
            assert((a + b)[k] == a[k]);
        } else {
            assert((a + b)[k] == b[k - a.len()]);
        }
    }
}

proof fn lemma_content_filter(ps: Seq<PlacementModel>, f: spec_fn(PlacementModel) -> bool)
    requires
        all_content_ok(ps),
    ensures
        all_content_ok(ps.filter(f)),
    decreases ps.len(),
{
    reveal(Seq::filter);
    if ps.len() > 0 {
        let d = ps.drop_last();
        assert forall|i: int| 0 <= i < d.len() implies content_ok(#[trigger] d[i]) by {
            assert(d[i] == ps[i]);
        }
        lemma_content_filter(d, f);
        assert(content_ok(ps[ps.len() - 1]));
        if f(ps.last()) {
            lemma_content_concat(d.filter(f), seq![ps.last()]);
            assert(d.filter(f).push(ps.last()) =~= d.filter(f) + seq![ps.last()]);
        }
    }
}

proof fn lemma_emit_content(b: BoxModel, x: int, row: int, width: int, path: Seq<usize>, rows: Seq<int>)
    requires
        colour_ok(b.colour),
        b.label.len() <= LAYOUT_LIMIT,
        0 <= row <= LAYOUT_LIMIT,
        forall|j: int| 0 <= j < rows.len() ==> 0 <= #[trigger] rows[j] <= LAYOUT_LIMIT,
    ensures
        all_content_ok(emit_spec(b, x, row, width, path, rows)),
{
    let ps = emit_spec(b, x, row, width, path, rows);
    if rows.len() > 0 {
        let origin = rows[0] * HALF_PITCH + 1;
        let stops = Seq::new(rows.len(), |j: int| rows[j] * HALF_PITCH + 1 - origin);
        assert forall|j: int| 0 <= j < stops.len() implies -8 * LAYOUT_LIMIT <= #[trigger] stops[j] <= 8
            * LAYOUT_LIMIT by {
            assert(0 <= rows[j] <= LAYOUT_LIMIT);
        }
        assert(content_ok(ps[2]));
    }
    assert(content_ok(ps[0]));
    assert(content_ok(ps[1]));
}

proof fn lemma_tree_content(b: BoxModel, depth: nat, path: Seq<usize>, offsets: Seq<int>, start: int)
    requires
        crate::diagram::box_colours_ok(b),
        tree_chars(b) <= LAYOUT_LIMIT,
        0 <= start,
        start + 2 * tree_total(b) <= LAYOUT_LIMIT,
    ensures
        all_content_ok(tree_places(b, depth, path, offsets, start)),
    decreases b,
{
    let cs = b.children;
    let rows = if cs.len() == 0 {
        Seq::empty()
    } else {
        child_rows(cs, start)
    };
    lemma_row_bounds(b, start);
    lemma_leaves(b);
    lemma_leaf_count(cs);
    if cs.len() > 0 {
        lemma_child_rows(cs, start);
        assert forall|j: int| 0 <= j < rows.len() implies 0 <= #[trigger] rows[j] <= LAYOUT_LIMIT by {
            lemma_take_monotone(cs, j + 1, cs.len() as int);
            assert(cs.take(cs.len() as int) =~= cs);
            lemma_leaf_count(cs.take(j));
        }
    }
    lemma_emit_content(b, offsets[2 * depth as int], tree_row(b, start), offsets[2 * depth as int + 1]
        - offsets[2 * depth as int], path, rows);
    lemma_forest_content(cs, depth + 1, path, offsets, start);
    lemma_content_concat(
        emit_spec(b, offsets[2 * depth as int], tree_row(b, start), offsets[2 * depth as int + 1]
            - offsets[2 * depth as int], path, rows),
        forest_places(cs, depth + 1, path, offsets, start),
    );
}

proof fn lemma_forest_content(bs: Seq<BoxModel>, depth: nat, parent: Seq<usize>, offsets: Seq<int>, start: int)
    requires
        crate::diagram::colours_ok(bs),
        chars_total(bs) <= LAYOUT_LIMIT,
        0 <= start,
        start + 2 * box_total(bs) <= LAYOUT_LIMIT,
    ensures
        all_content_ok(forest_places(bs, depth, parent, offsets, start)),
    decreases bs,
{
    if bs.len() > 0 {
        let d = bs.drop_last();
        lemma_leaf_count(d);
        lemma_forest_content(d, depth, parent, offsets, start);
        lemma_tree_content(bs.last(), depth, parent.push((bs.len() - 1) as usize), offsets, start + 2
            * leaf_count(d));
        lemma_content_concat(
            forest_places(d, depth, parent, offsets, start),
            tree_places(bs.last(), depth, parent.push((bs.len() - 1) as usize), offsets, start + 2
                * leaf_count(d)),
        );
    } else {
        assert(forest_places(bs, depth, parent, offsets, start) =~= Seq::<PlacementModel>::empty());
    }
}

/// The layout of a forest in palette colours draws nothing it cannot draw.
pub proof fn lemma_diagram_content(bs: Seq<BoxModel>)
    requires
        crate::diagram::colours_ok(bs),
        layout_fits(bs),
    ensures
        all_content_ok(diagram_spec(bs)),
{
    if bs.len() > 0 {
        let ps = forest_places(bs, 0, Seq::empty(), prefix_offsets(measure_forest(bs)), 0);
        lemma_forest_content(bs, 0, Seq::empty(), prefix_offsets(measure_forest(bs)), 0);
        lemma_content_filter(ps, box_filter());
        lemma_content_filter(ps, rest_filter());
        lemma_content_concat(ps.filter(box_filter()), ps.filter(rest_filter()));
    } else {
        assert(diagram_spec(bs) =~= Seq::<PlacementModel>::empty());
    }
}

/// The placement labelled with the box at `path`.
pub open spec fn labels(p: PlacementModel, path: Seq<usize>) -> bool {
    p.node matches PlacementNodeModel::Label { path: q, .. } && q == path
}

/// The first placement labelled with the box at `path`.
pub open spec fn first_label(ps: Seq<PlacementModel>, path: Seq<usize>, k: int) -> bool {
    &&& 0 <= k < ps.len()
    &&& labels(ps[k], path)
    &&& forall|j: int| 0 <= j < k ==> !labels(#[trigger] ps[j], path)
}

pub open spec fn first_label_index(ps: Seq<PlacementModel>, path: Seq<usize>) -> int {
    choose|k: int| first_label(ps, path, k)
}

/// The caret just inside the right edge of a label.
pub open spec fn cursor_after(p: PlacementModel) -> PlacementModel {
    PlacementModel { node: PlacementNodeModel::Cursor, x: p.x + p.width - 1, y: p.y, width: 1, height: 1 }
}

/// The placements with a caret after the selected box's label, when the
/// selection labels one of them.
pub open spec fn with_cursor_spec(ps: Seq<PlacementModel>, selected: Option<Seq<usize>>) -> Seq<
    PlacementModel,
> {
    match selected {
        None => ps,
        Some(path) => if exists|k: int| first_label(ps, path, k) {
            ps.push(cursor_after(ps[first_label_index(ps, path)]))
        } else {
            ps
        },
    }
}

pub open spec fn indices_opt(v: Option<Vec<usize>>) -> Option<Seq<usize>> {
    match v {
        Some(p) => Some(p@),
        None => None,
    }
}

/// Whether two lists of indices are the same.
pub fn same_indices(a: &Vec<usize>, b: &Vec<usize>) -> (r: bool)
    ensures
        r == (a@ == b@),
{
    if a.len() != b.len() {
        return false;
    }
    let mut i: usize = 0;
    while i < a.len()
        invariant
            a.len() == b.len(),
            i <= a.len(),
            forall|j: int| 0 <= j < i ==> a@[j] == b@[j],
        decreases a.len() - i,
    {
        if a[i] != b[i] {
            return false;
        }
        i = i + 1;
    }
    proof {
        assert(a@ =~= b@);
    }
    true
}

/// Adds a caret after the label of the selected box, if one is placed.
pub fn with_cursor<'a>(placements: Vec<Placement<'a>>, selected: Option<Vec<usize>>) -> (r: Vec<
    Placement<'a>,
>)
    requires
        all_bounded(views(placements@)),
    ensures
        views(r@) == with_cursor_spec(views(placements@), indices_opt(selected)),
{
    let ghost ps = views(placements@);
    let path: &Vec<usize> = match &selected {
        Some(p) => p,
        None => {
            return placements;
        },
    };
    let mut k: usize = 0;
    while k < placements.len()
        invariant
            k <= placements.len(),
            ps == views(placements@),
            all_bounded(ps),
            forall|j: int| 0 <= j < k ==> !labels(#[trigger] ps[j], path@),
            indices_opt(selected) == Some(path@),
        decreases placements.len() - k,
    {
        let found = match &placements[k].node {
            PlacementNode::Label(label) => same_indices(&label.path, path),
            _ => false,
        };
        if found {
            proof {
                assert(bounded(ps[k as int]));
                assert(first_label(ps, path@, k as int));
                let c = first_label_index(ps, path@);
                if c < k {
                    assert(!labels(ps[c], path@));
                }
                if c > k {
                    assert(!labels(ps[k as int], path@));
                }
                assert(c == k);
            }
            let x = placements[k].x + placements[k].width - 1;
            let y = placements[k].y;
            let mut result = placements;
            result.push(Placement { node: PlacementNode::Cursor(Cursor), x, y, width: 1, height: 1 });
            proof {
                assert(views(result@) =~= ps.push(cursor_after(ps[k as int])));
                assert(indices_opt(selected) == Some(path@));
                assert(exists|c: int| first_label(ps, path@, c));
                assert(with_cursor_spec(ps, Some(path@)) == ps.push(cursor_after(ps[k as int])));
            }
            return result;
        }
        k = k + 1;
    }
    proof {
        assert forall|c: int| !first_label(ps, path@, c) by {
            if 0 <= c < ps.len() {
                assert(!labels(ps[c], path@));
            }
        }
    }
    placements
}

/// The strip along the bottom of the screen: one filled square box.
pub fn footer(width: i64, height: i64) -> (r: Vec<Placement<'static>>)
    ensures
        views(r@) == seq![
            PlacementModel {
                node: PlacementNodeModel::Box {
                    colour: Some(FOOTER_COLOUR),
                    fill: Some(FOOTER_COLOUR),
                    rounded: false,
                },
                x: 0,
                y: 0,
                width: width as int,
                height: height as int,
            },
        ],
{
    let mut r: Vec<Placement<'static>> = Vec::new();
    r.push(
        Placement {
            node: PlacementNode::Box {
                colour: Some(FOOTER_COLOUR),
                fill: Some(FOOTER_COLOUR),
                rounded: false,
            },
            x: 0,
            y: 0,
            width,
            height,
        },
    );
    proof {
        assert(views(r@) =~= seq![
            PlacementModel {
                node: PlacementNodeModel::Box {
                    colour: Some(FOOTER_COLOUR),
                    fill: Some(FOOTER_COLOUR),
                    rounded: false,
                },
                x: 0,
                y: 0,
                width: width as int,
                height: height as int,
            },
        ]);
    }
    r
}


/// The furthest right edge of the placements, or zero when there are none.
pub open spec fn right_edge(ps: Seq<PlacementModel>) -> int
    decreases ps.len(),
{
    if ps.len() == 0 {
        0
    } else if ps.len() == 1 {
        ps[0].x + ps[0].width
    } else {
        let a = right_edge(ps.drop_last());
        let b = ps.last().x + ps.last().width;
        if a >= b {
            a
        } else {
            b
        }
    }
}

/// The furthest bottom edge of the placements, or zero when there are none.
pub open spec fn bottom_edge(ps: Seq<PlacementModel>) -> int
    decreases ps.len(),
{
    if ps.len() == 0 {
        0
    } else if ps.len() == 1 {
        ps[0].y + ps[0].height
    } else {
        let a = bottom_edge(ps.drop_last());
        let b = ps.last().y + ps.last().height;
        if a >= b {
            a
        } else {
            b
        }
    }
}

/// How far right and how far down the placements reach.
pub fn extent_of(placements: &Vec<Placement>) -> (r: (i64, i64))
    requires
        all_bounded(views(placements@)),
    ensures
        r.0 == right_edge(views(placements@)),
        r.1 == bottom_edge(views(placements@)),
{
    let ghost ps = views(placements@);
    let mut right: i64 = 0;
    let mut bottom: i64 = 0;
    let mut i: usize = 0;
    proof {
        assert(ps.take(0) =~= Seq::<PlacementModel>::empty());
    }
    while i < placements.len()
        invariant
            i <= placements.len(),
            ps == views(placements@),
            all_bounded(ps),
            right == right_edge(ps.take(i as int)),
            bottom == bottom_edge(ps.take(i as int)),
        decreases placements.len() - i,
    {
        proof {
            assert(bounded(ps[i as int]));
            assert(ps.take(i + 1).drop_last() =~= ps.take(i as int));
            assert(ps.take(i + 1).last() == ps[i as int]);
            if i == 0 {
                assert(ps.take(1)[0] == ps[0]);
            }
        }
        let r = placements[i].x + placements[i].width;
        let b = placements[i].y + placements[i].height;
        if i == 0 || r > right {
            right = r;
        }
        if i == 0 || b > bottom {
            bottom = b;
        }
        i = i + 1;
    }
    proof {
        assert(ps.take(i as int) =~= ps);
    }
    (right, bottom)
}


/// A column or row of a grid: where it starts and how big it is.
#[derive(Debug, Clone, Copy, PartialEq, Eq)]
pub struct Track {
    pub offset: i64,
    pub extent: i64,
}

/// The size of track `c`: the largest extent given to it among the first
/// `n` pairs, and nothing when none is.
pub open spec fn track_size(extents: Seq<i64>, indices: Seq<i64>, c: int, n: int) -> int
    decreases n,
{
    if n <= 0 {
        0
    } else {
        let before = track_size(extents, indices, c, n - 1);
        if indices[n - 1] == c && extents[n - 1] > before {
            extents[n - 1] as int
        } else {
            before
        }
    }
}

pub open spec fn pairs(extents: Seq<i64>, indices: Seq<i64>) -> int {
    if extents.len() <= indices.len() {
        extents.len() as int
    } else {
        indices.len() as int
    }
}

pub open spec fn max_index(indices: Seq<i64>) -> int
    decreases indices.len(),
{
    if indices.len() <= 1 {
        indices[0] as int
    } else {
        let a = max_index(indices.drop_last());
        if indices.last() > a {
            indices.last() as int
        } else {
            a
        }
    }
}

/// Where track `c` starts: after every track before it.
pub open spec fn track_offset(extents: Seq<i64>, indices: Seq<i64>, c: int) -> int
    decreases c,
{
    if c <= 0 {
        0
    } else {
        track_offset(extents, indices, c - 1) + track_size(extents, indices, c - 1, pairs(extents, indices))
    }
}

/// The extents that `tracks` takes: indices from zero, a bounded number of
/// tracks, and sizes well inside an `i64`.
pub open spec fn tracks_ok(extents: Seq<i64>, indices: Seq<i64>) -> bool {
    &&& indices.len() > 0
    &&& forall|j: int| 0 <= j < indices.len() ==> 0 <= #[trigger] indices[j] < 0x10000
    &&& forall|j: int| 0 <= j < extents.len() ==> -0x1_0000_0000 <= #[trigger] extents[j] <= 0x1_0000_0000
}

proof fn lemma_track_size_bound(extents: Seq<i64>, indices: Seq<i64>, c: int, n: int)
    requires
        tracks_ok(extents, indices),
        n <= pairs(extents, indices),
    ensures
        0 <= track_size(extents, indices, c, n) <= 0x1_0000_0000,
    decreases n,
{
    if n > 0 {
        lemma_track_size_bound(extents, indices, c, n - 1);
        assert(-0x1_0000_0000 <= extents[n - 1] <= 0x1_0000_0000);
    }
}

proof fn lemma_max_index(indices: Seq<i64>)
    requires
        indices.len() > 0,
    ensures
        forall|j: int| 0 <= j < indices.len() ==> indices[j] <= max_index(indices),
        exists|j: int| 0 <= j < indices.len() && indices[j] == max_index(indices),
    decreases indices.len(),
{
    if indices.len() > 1 {
        lemma_max_index(indices.drop_last());
        let d = indices.drop_last();
        assert forall|j: int| 0 <= j < indices.len() implies indices[j] <= max_index(indices) by {
            if j < indices.len() - 1 {
                assert(indices[j] == d[j]);
            }
        }
        if indices.last() > max_index(d) {
            assert(indices[indices.len() - 1] == max_index(indices));
        } else {
            let j = choose|j: int| 0 <= j < d.len() && d[j] == max_index(d);
            assert(indices[j] == max_index(indices));
        }
    } else {
        assert(indices[0] == max_index(indices));
    }
}

/// Lays tracks end to end, each as big as the largest extent given to it.
pub fn tracks(extents: &[i64], indices: &[i64]) -> (r: Vec<Track>)
    requires
        tracks_ok(extents@, indices@),
    ensures
        r@.len() == max_index(indices@) + 1,
        forall|c: int| 0 <= c < r@.len() ==> (#[trigger] r@[c]).extent == track_size(extents@, indices@, c, pairs(extents@, indices@)),
        forall|c: int| 0 <= c < r@.len() ==> (#[trigger] r@[c]).offset == track_offset(extents@, indices@, c),
{
    let ghost e = extents@;
    let ghost ix = indices@;
    let ghost n = pairs(e, ix);
    proof {
        lemma_max_index(ix);
    }
    let mut top: i64 = indices[0];
    let mut k: usize = 1;
    while k < indices.len()
        invariant
            1 <= k <= indices@.len(),
            ix == indices@,
            tracks_ok(e, ix),
            top == max_index(ix.take(k as int)),
            0 <= top < 0x10000,
        decreases indices.len() - k,
    {
        proof {
            assert(ix.take(k + 1).drop_last() =~= ix.take(k as int));
            assert(ix.take(k + 1).last() == ix[k as int]);
            assert(0 <= ix[k as int] < 0x10000);
        }
        if indices[k] > top {
            top = indices[k];
        }
        k = k + 1;
    }
    proof {
        assert(ix.take(k as int) =~= ix);
        if ix.len() == 1 {
            assert(ix.take(1) =~= ix);
        }
    }
    let count: usize = (top + 1) as usize;
    let mut sizes: Vec<i64> = Vec::new();
    let mut c: usize = 0;
    while c < count
        invariant
            c <= count,
            sizes@.len() == c,
            forall|d: int| 0 <= d < c ==> #[trigger] sizes@[d] == 0,
        decreases count - c,
    {
        sizes.push(0);
        c = c + 1;
    }
    let pair_count = if extents.len() <= indices.len() {
        extents.len()
    } else {
        indices.len()
    };
    let mut j: usize = 0;
    while j < pair_count
        invariant
            j <= pair_count,
            pair_count == n,
            n == pairs(e, ix),
            e == extents@,
            ix == indices@,
            tracks_ok(e, ix),
            count == max_index(ix) + 1,
            forall|i: int| 0 <= i < ix.len() ==> ix[i] <= max_index(ix),
            sizes@.len() == count,
            forall|d: int| 0 <= d < count ==> #[trigger] sizes@[d] == track_size(e, ix, d, j as int),
        decreases pair_count - j,
    {
        let index = indices[j];
        proof {
            assert(0 <= ix[j as int] < 0x10000);
            assert(ix[j as int] <= max_index(ix));
        }
        let slot = index as usize;
        if extents[j] > sizes[slot] {
            sizes.set(slot, extents[j]);
        }
        j = j + 1;
    }
    let mut laid: Vec<Track> = Vec::new();
    let mut offset: i64 = 0;
    let mut t: usize = 0;
    while t < count
        invariant
            t <= count,
            count == max_index(ix) + 1,
            count <= 0x10000,
            sizes@.len() == count,
            tracks_ok(e, ix),
            n == pairs(e, ix),
            forall|d: int| 0 <= d < count ==> #[trigger] sizes@[d] == track_size(e, ix, d, n),
            laid@.len() == t,
            offset == track_offset(e, ix, t as int),
            0 <= offset <= t * 0x1_0000_0000,
            forall|d: int| 0 <= d < t ==> (#[trigger] laid@[d]).extent == track_size(e, ix, d, n),
            forall|d: int| 0 <= d < t ==> (#[trigger] laid@[d]).offset == track_offset(e, ix, d),
        decreases count - t,
    {
        proof {
            lemma_track_size_bound(e, ix, t as int, n);
        }
        laid.push(Track { offset, extent: sizes[t] });
        offset = offset + sizes[t];
        t = t + 1;
    }
    laid
}

pub open spec fn extent_sum(laid: Seq<Track>) -> int
    decreases laid.len(),
{
    if laid.len() == 0 {
        0
    } else {
        extent_sum(laid.drop_last()) + laid.last().extent
    }
}

/// How far the tracks reach all together.
pub fn span(laid: &[Track]) -> (r: i64)
    requires
        laid@.len() <= 0x10000,
        forall|i: int| 0 <= i < laid@.len() ==> -0x1_0000_0000 <= #[trigger] laid@[i].extent <= 0x1_0000_0000,
    ensures
        r == extent_sum(laid@),
{
    let mut total: i64 = 0;
    let mut i: usize = 0;
    proof {
        assert(laid@.take(0) =~= Seq::<Track>::empty());
    }
    while i < laid.len()
        invariant
            i <= laid@.len(),
            laid@.len() <= 0x10000,
            forall|k: int| 0 <= k < laid@.len() ==> -0x1_0000_0000 <= #[trigger] laid@[k].extent <= 0x1_0000_0000,
            total == extent_sum(laid@.take(i as int)),
            -i * 0x1_0000_0000 <= total <= i * 0x1_0000_0000,
        decreases laid.len() - i,
    {
        proof {
            assert(laid@.take(i + 1).drop_last() =~= laid@.take(i as int));
            assert(laid@.take(i + 1).last() == laid@[i as int]);
        }
        total = total + laid[i].extent;
        i = i + 1;
    }
    proof {
        assert(laid@.take(i as int) =~= laid@);
    }
    total
}

/// The wider of each column of two lists of widths.
fn merge_widths(a: &Vec<i64>, b: &Vec<i64>) -> (r: Vec<i64>)
    ensures
        ints(r@) == merge(ints(a@), ints(b@)),
{
    let ghost ai = ints(a@);
    let ghost bi = ints(b@);
    let n = if a.len() >= b.len() {
        a.len()
    } else {
        b.len()
    };
    let mut r: Vec<i64> = Vec::new();
    let mut i: usize = 0;
    while i < n
        invariant
            n == merge(ai, bi).len(),
            ai == ints(a@),
            bi == ints(b@),
            i <= n,
            r@.len() == i,
            forall|j: int| 0 <= j < i ==> r@[j] as int == #[trigger] merge(ai, bi)[j],
        decreases n - i,
    {
        let x: i64 = if i < a.len() {
            a[i]
        } else {
            0
        };
        let y: i64 = if i < b.len() {
            b[i]
        } else {
            0
        };
        r.push(if x >= y {
            x
        } else {
            y
        });
        i = i + 1;
    }
    proof {
        assert(ints(r@) =~= merge(ai, bi));
    }
    r
}

pub open spec fn ints(v: Seq<i64>) -> Seq<int> {
    v.map_values(|x: i64| x as int)
}

fn measure_tree_exec(node: &Node) -> (r: Vec<i64>)
    requires
        layout_fits(seq![model(*node)]),
    ensures
        ints(r@) == measure_tree(model(*node)),
    decreases node,
{
    let b = Ghost(model(*node));
    proof {
        lemma_fits_one(b@);
    }
    let w = width(node);
    let mut r: Vec<i64> = Vec::new();
    r.push(w);
    if node.children.len() == 0 {
        proof {
            assert(ints(r@) =~= measure_tree(b@));
        }
        r
    } else {
        r.push(GAP_WIDTH);
        proof {
            assert(decreases_to!(node => node.children));
        }
        let below = measure_columns(&node.children);
        let mut i: usize = 0;
        while i < below.len()
            invariant
                i <= below.len(),
                ints(below@) == measure_forest(models(node.children@)),
                r@.len() == 2 + i,
                ints(r@) == seq![w as int, GAP_WIDTH as int] + ints(below@).take(i as int),
            decreases below.len() - i,
        {
            let ghost before = r@;
            r.push(below[i]);
            proof {
                assert(ints(below@)[i as int] == below@[i as int] as int);
                assert(ints(r@) =~= ints(before).push(below@[i as int] as int));
                assert(ints(below@).take(i + 1) =~= ints(below@).take(i as int).push(
                    ints(below@)[i as int],
                ));
            }
            i = i + 1;
            proof {
                assert(ints(r@) =~= seq![w as int, GAP_WIDTH as int] + ints(below@).take(i as int));
            }
        }
        proof {
            assert(ints(below@).take(i as int) =~= ints(below@));
            assert(ints(r@) =~= measure_tree(b@));
        }
        r
    }
}

/// The width of every column of a forest, from the left.
pub fn measure_columns(boxes: &Vec<Node>) -> (r: Vec<i64>)
    requires
        layout_fits(models(boxes@)),
    ensures
        ints(r@) == measure_forest(models(boxes@)),
    decreases boxes,
{
    let mut acc: Vec<i64> = Vec::new();
    let mut i: usize = 0;
    proof {
        assert(ints(acc@) =~= measure_forest(models(boxes@.take(0))));
    }
    while i < boxes.len()
        invariant
            i <= boxes.len(),
            layout_fits(models(boxes@)),
            ints(acc@) == measure_forest(models(boxes@.take(i as int))),
        decreases boxes.len() - i,
    {
        proof {
            assert(decreases_to!(boxes => boxes@));
            assert(decreases_to!(boxes@ => boxes@[i as int]));
            lemma_fits_element(boxes@, i as int);
        }
        let t = measure_tree_exec(&boxes[i]);
        let m = merge_widths(&acc, &t);
        proof {
            let pre = boxes@.take(i as int);
            assert(pre.push(boxes@[i as int]) =~= boxes@.take(i + 1));
            crate::diagram::lemma_models_push(pre, boxes@[i as int]);
            assert(models(pre.push(boxes@[i as int])).drop_last() =~= models(pre));
            assert(ints(m@) =~= measure_forest(models(boxes@.take(i + 1))));
        }
        acc = m;
        i = i + 1;
    }
    proof {
        assert(boxes@.take(i as int) =~= boxes@);
    }
    acc
}

/// Every placement ends at or above row `m`.
pub open spec fn all_end_by(ps: Seq<PlacementModel>, m: int) -> bool {
    forall|i: int| 0 <= i < ps.len() ==> #[trigger] ps[i].y + ps[i].height <= m
}

/// Some placement ends exactly at row `m`.
pub open spec fn one_ends_at(ps: Seq<PlacementModel>, m: int) -> bool {
    exists|i: int| 0 <= i < ps.len() && #[trigger] ps[i].y + ps[i].height == m
}

proof fn lemma_bottom_edge(ps: Seq<PlacementModel>)
    requires
        ps.len() > 0,
    ensures
        all_end_by(ps, bottom_edge(ps)),
        one_ends_at(ps, bottom_edge(ps)),
    decreases ps.len(),
{
    let n = ps.len() as int;
    if n == 1 {
        assert(ps[0].y + ps[0].height == bottom_edge(ps));
    } else {
        let d = ps.drop_last();
        lemma_bottom_edge(d);
        assert forall|i: int| 0 <= i < n implies #[trigger] ps[i].y + ps[i].height <= bottom_edge(ps) by {
            if i < n - 1 {
                assert(ps[i] == d[i]);
            }
        }
        if bottom_edge(d) >= ps.last().y + ps.last().height {
            let k = choose|k: int| 0 <= k < d.len() && #[trigger] d[k].y + d[k].height == bottom_edge(d);
            assert(ps[k] == d[k]);
        } else {
            assert(ps[n - 1].y + ps[n - 1].height == bottom_edge(ps));
        }
    }
}

/// The bottom edge of placements is the row that all end by and one ends at.
proof fn lemma_bottom_edge_is(ps: Seq<PlacementModel>, m: int)
    requires
        all_end_by(ps, m),
        one_ends_at(ps, m),
    ensures
        bottom_edge(ps) == m,
{
    lemma_bottom_edge(ps);
    let k = choose|k: int| 0 <= k < ps.len() && #[trigger] ps[k].y + ps[k].height == m;
    let j = choose|j: int| 0 <= j < ps.len() && #[trigger] ps[j].y + ps[j].height == bottom_edge(ps);
}

proof fn lemma_end_concat(a: Seq<PlacementModel>, b: Seq<PlacementModel>, m: int)
    ensures
        all_end_by(a, m) && all_end_by(b, m) ==> all_end_by(a + b, m),
        one_ends_at(b, m) ==> one_ends_at(a + b, m),
        one_ends_at(a, m) ==> one_ends_at(a + b, m),
{
    if all_end_by(a, m) && all_end_by(b, m) {
        assert forall|i: int| 0 <= i < (a + b).len() implies #[trigger] (a + b)[i].y + (a + b)[i].height
            <= m by {
            if i >= a.len() {
                assert((a + b)[i] == b[i - a.len()]);
            }
        }
    }
    if one_ends_at(b, m) {
        let k = choose|k: int| 0 <= k < b.len() && #[trigger] b[k].y + b[k].height == m;
        assert((a + b)[a.len() + k] == b[k]);
    }
    if one_ends_at(a, m) {
        let k = choose|k: int| 0 <= k < a.len() && #[trigger] a[k].y + a[k].height == m;
        assert((a + b)[k] == a[k]);
    }
}

/// A tree placed from the free row `start` ends at the bottom of its last
/// leaf's box: three rows below the row of that leaf.
proof fn lemma_tree_bottom(b: BoxModel, depth: nat, path: Seq<usize>, offsets: Seq<int>, start: int)
    ensures
        all_end_by(tree_places(b, depth, path, offsets, start), 3 * start + 6 * leaves(b) - 3),
        one_ends_at(tree_places(b, depth, path, offsets, start), 3 * start + 6 * leaves(b) - 3),
    decreases b,
{
    let m = 3 * start + 6 * leaves(b) - 3;
    let col: int = 2 * depth as int;
    let cs = b.children;
    let rows = if cs.len() == 0 {
        Seq::empty()
    } else {
        child_rows(cs, start)
    };
    let row = tree_row(b, start);
    let own = emit_spec(b, offsets[col], row, offsets[col + 1] - offsets[col], path, rows);
    let below = forest_places(cs, depth + 1, path, offsets, start);
    lemma_row_bounds(b, start);
    lemma_leaves(b);
    if cs.len() == 0 {
        assert(below =~= Seq::<PlacementModel>::empty());
        assert(own[0].y + own[0].height == m);
        assert(all_end_by(own, m));
        assert(one_ends_at(own, m));
        lemma_end_concat(own, below, m);
        assert(tree_places(b, depth, path, offsets, start) == own + below);
    } else {
        lemma_forest_bottom(cs, depth + 1, path, offsets, start);
        lemma_child_rows(cs, start);
        assert(cs.take(cs.len() as int) =~= cs);
        let n = cs.len();
        assert(rows[n - 1] <= start + 2 * leaf_count(cs) - 2);
        assert(all_end_by(own, m)) by {
            assert(own[0].y + own[0].height <= m);
            assert(own[1].y + own[1].height <= m);
            assert(own[2].y + own[2].height == rows[n - 1] * HALF_PITCH + 2);
        }
        lemma_end_concat(own, below, m);
        assert(tree_places(b, depth, path, offsets, start) == own + below);
    }
}

/// A forest placed from the free row `start` ends at the bottom of its last
/// leaf's box.
proof fn lemma_forest_bottom(bs: Seq<BoxModel>, depth: nat, parent: Seq<usize>, offsets: Seq<int>, start: int)
    requires
        bs.len() > 0,
    ensures
        all_end_by(forest_places(bs, depth, parent, offsets, start), 3 * start + 6 * leaf_count(bs) - 3),
        one_ends_at(forest_places(bs, depth, parent, offsets, start), 3 * start + 6 * leaf_count(bs) - 3),
    decreases bs,
{
    let d = bs.drop_last();
    let m = 3 * start + 6 * leaf_count(bs) - 3;
    let next = start + 2 * leaf_count(d);
    let last = tree_places(bs.last(), depth, parent.push((bs.len() - 1) as usize), offsets, next);
    lemma_tree_bottom(bs.last(), depth, parent.push((bs.len() - 1) as usize), offsets, next);
    lemma_leaves(bs.last());
    let first = forest_places(d, depth, parent, offsets, start);
    if d.len() > 0 {
        lemma_forest_bottom(d, depth, parent, offsets, start);
        assert forall|i: int| 0 <= i < first.len() implies #[trigger] first[i].y + first[i].height <= m by {
        }
    } else {
        assert(first =~= Seq::<PlacementModel>::empty());
    }
    lemma_end_concat(first, last, m);
}

/// What a box contributes to the layout, in order: its box, in its depth's
/// column and as wide as it, on its row; its label, centred on the box's
/// midline and carrying the box's path; when it has children, one arrow out
/// of its right edge with a stop for each child; then every child's
/// placements.
pub proof fn law_box_label_arrow(b: BoxModel, depth: nat, path: Seq<usize>, offsets: Seq<int>, start: int)
    ensures
        ({
            let ps = tree_places(b, depth, path, offsets, start);
            let x = offsets[2 * depth as int];
            let w = offsets[2 * depth as int + 1] - x;
            let y = tree_row(b, start) * HALF_PITCH;
            let head: int = if b.children.len() == 0 {
                2
            } else {
                3
            };
            &&& ps.len() == head + forest_places(b.children, depth + 1, path, offsets, start).len()
            &&& ps[0] == (PlacementModel {
                node: PlacementNodeModel::Box {
                    colour: b.colour,
                    fill: if b.filled {
                        b.colour
                    } else {
                        None
                    },
                    rounded: b.rounded,
                },
                x,
                y,
                width: w,
                height: BOX_HEIGHT as int,
            })
            &&& ps[1] == (PlacementModel {
                node: PlacementNodeModel::Label { text: b.label, path },
                x: x + centre_spec(w, b.label),
                y: y + 1,
                width: interior_spec(b.label),
                height: 1,
            })
            &&& b.children.len() > 0 ==> (ps[2].node matches PlacementNodeModel::Arrow { stops, shaft }
                && stops.len() == b.children.len() && ps[2].x == x + w)
            &&& ps.skip(head) == forest_places(b.children, depth + 1, path, offsets, start)
        }),
{
    let ps = tree_places(b, depth, path, offsets, start);
    let rows = if b.children.len() == 0 {
        Seq::empty()
    } else {
        child_rows(b.children, start)
    };
    let col: int = 2 * depth as int;
    let e = emit_spec(b, offsets[col], tree_row(b, start), offsets[col + 1] - offsets[col], path, rows);
    let kids = forest_places(b.children, depth + 1, path, offsets, start);
    if b.children.len() > 0 {
        lemma_child_rows(b.children, start);
    }
    assert(ps == e + kids);
    assert(ps.skip(e.len() as int) =~= kids);
}

/// A leaf sits on the row its forest hands it; a parent sits level with
/// its middle child, or one row below the child just before the middle when
/// it has an even number of children. Each child's row is its own box's
/// row, found from the leaves before it, and the rows go down at least two
/// at a time.
pub proof fn law_parent_level_with_middle_child(b: BoxModel, start: int)
    ensures
        b.children.len() == 0 ==> tree_row(b, start) == start,
        b.children.len() > 0 ==> tree_row(b, start) == median(child_rows(b.children, start)),
        child_rows(b.children, start).len() == b.children.len(),
        forall|j: int|
            0 <= j < b.children.len() ==> #[trigger] child_rows(b.children, start)[j] == tree_row(
                b.children[j],
                start + 2 * leaf_count(b.children.take(j)),
            ),
        forall|j: int|
            0 <= j < b.children.len() - 1 ==> #[trigger] child_rows(b.children, start)[j] + 2
                <= child_rows(b.children, start)[j + 1],
{
    let cs = b.children;
    lemma_child_rows(cs, start);
    lemma_child_rows_are_rows(cs, start);
}

proof fn lemma_child_rows_are_rows(bs: Seq<BoxModel>, start: int)
    ensures
        forall|j: int|
            0 <= j < bs.len() ==> #[trigger] child_rows(bs, start)[j] == tree_row(
                bs[j],
                start + 2 * leaf_count(bs.take(j)),
            ),
    decreases bs.len(),
{
    if bs.len() > 0 {
        let d = bs.drop_last();
        lemma_child_rows_are_rows(d, start);
        lemma_child_rows(d, start);
        assert forall|j: int| 0 <= j < bs.len() implies #[trigger] child_rows(bs, start)[j] == tree_row(
            bs[j],
            start + 2 * leaf_count(bs.take(j)),
        ) by {
            if j < bs.len() - 1 {
                assert(bs.take(j) =~= d.take(j));
            } else {
                assert(bs.take(j) =~= d);
            }
        }
    }
}

/// Leaves take every other row, in order: the boxes of a forest come one
/// tree after another, each tree's placements starting where the trees
/// before it end and its first leaf two rows further down for each leaf
/// before it, and every row of a tree lies between its first and its last
/// leaf's.
pub proof fn law_trees_follow_in_order(
    bs: Seq<BoxModel>,
    depth: nat,
    parent: Seq<usize>,
    offsets: Seq<int>,
    start: int,
    j: int,
)
    requires
        0 <= j < bs.len(),
    ensures
        forest_places(bs.take(j + 1), depth, parent, offsets, start) == forest_places(
            bs.take(j),
            depth,
            parent,
            offsets,
            start,
        ) + tree_places(bs[j], depth, parent.push(j as usize), offsets, start + 2 * leaf_count(bs.take(j))),
        start + 2 * leaf_count(bs.take(j)) <= tree_row(bs[j], start + 2 * leaf_count(bs.take(j)))
            <= start + 2 * leaf_count(bs.take(j + 1)) - 2,
        leaf_count(bs.take(j + 1)) == leaf_count(bs.take(j)) + leaves(bs[j]),
        forest_places(bs.take(bs.len() as int), depth, parent, offsets, start) == forest_places(
            bs,
            depth,
            parent,
            offsets,
            start,
        ),
{
    let t = bs.take(j + 1);
    assert(t.drop_last() =~= bs.take(j));
    assert(t.last() == bs[j]);
    assert(bs.take(bs.len() as int) =~= bs);
    lemma_leaf_count_step(bs, j);
    lemma_row_bounds(bs[j], start + 2 * leaf_count(bs.take(j)));
}

/// The layout of a forest reaches down to the bottom of the box of its last
/// leaf: six rows for each leaf, less the gap after the last; an empty
/// forest reaches nowhere.
pub proof fn law_layout_height(bs: Seq<BoxModel>)
    ensures
        bs.len() == 0 ==> bottom_edge(diagram_spec(bs)) == 0 && right_edge(diagram_spec(bs)) == 0,
        bs.len() > 0 ==> bottom_edge(diagram_spec(bs)) == 6 * leaf_count(bs) - 3,
{
    if bs.len() > 0 {
        let ps = forest_places(bs, 0, Seq::empty(), prefix_offsets(measure_forest(bs)), 0);
        let m = 6 * leaf_count(bs) - 3;
        lemma_forest_bottom(bs, 0, Seq::empty(), prefix_offsets(measure_forest(bs)), 0);
        let a = ps.filter(box_filter());
        let r = ps.filter(rest_filter());
        let q = a + r;
        assert(diagram_spec(bs) == q);
        assert forall|i: int| 0 <= i < q.len() implies #[trigger] q[i].y + q[i].height <= m by {
            if i < a.len() {
                ps.lemma_filter_contains_rev(box_filter(), a[i]);
                assert(a.contains(a[i]));
                let k = choose|k: int| 0 <= k < ps.len() && ps[k] == a[i];
                assert(ps[k].y + ps[k].height <= m);
            } else {
                assert(q[i] == r[i - a.len()]);
                ps.lemma_filter_contains_rev(rest_filter(), r[i - a.len()]);
                assert(r.contains(r[i - a.len()]));
                let k = choose|k: int| 0 <= k < ps.len() && ps[k] == r[i - a.len()];
                assert(ps[k].y + ps[k].height <= m);
            }
        }
        let k = choose|k: int| 0 <= k < ps.len() && #[trigger] ps[k].y + ps[k].height == m;
        if ps[k].node is Box {
            ps.lemma_filter_contains(box_filter(), k);
            let j = choose|j: int| 0 <= j < a.len() && a[j] == ps[k];
            assert(q[j] == a[j]);
        } else {
            ps.lemma_filter_contains(rest_filter(), k);
            let j = choose|j: int| 0 <= j < r.len() && r[j] == ps[k];
            assert(q[a.len() + j] == r[j]);
        }
        lemma_bottom_edge_is(q, m);
    }
}

/// Every placement's right edge lies at or left of column `m`.
pub open spec fn all_right_by(ps: Seq<PlacementModel>, m: int) -> bool {
    forall|i: int| 0 <= i < ps.len() ==> #[trigger] ps[i].x + ps[i].width <= m
}

/// Some placement's right edge lies exactly on column `m`.
pub open spec fn one_right_at(ps: Seq<PlacementModel>, m: int) -> bool {
    exists|i: int| 0 <= i < ps.len() && #[trigger] ps[i].x + ps[i].width == m
}

/// The columns of `w` from `col` on are at least as wide as those of `m`.
pub open spec fn dominates(w: Seq<int>, col: int, m: Seq<int>) -> bool {
    &&& 0 <= col
    &&& col + m.len() <= w.len()
    &&& forall|k: int| 0 <= k < m.len() ==> w[col + k] >= #[trigger] m[k]
}

proof fn lemma_forest_dominates(bs: Seq<BoxModel>, j: int)
    requires
        0 <= j < bs.len(),
    ensures
        measure_tree(bs[j]).len() <= measure_forest(bs).len(),
        forall|k: int| 0 <= k < measure_tree(bs[j]).len() ==> measure_forest(bs)[k] >= #[trigger] measure_tree(bs[j])[k],
    decreases bs.len(),
{
    let d = bs.drop_last();
    let a = measure_forest(d);
    let t = measure_tree(bs.last());
    if j < bs.len() - 1 {
        lemma_forest_dominates(d, j);
        assert(bs[j] == d[j]);
        assert forall|k: int| 0 <= k < measure_tree(bs[j]).len() implies measure_forest(bs)[k] >= #[trigger] measure_tree(bs[j])[k] by {
            assert(at_or_zero(a, k) == a[k]);
        }
    } else {
        assert forall|k: int| 0 <= k < measure_tree(bs[j]).len() implies measure_forest(bs)[k] >= #[trigger] measure_tree(bs[j])[k] by {
            assert(at_or_zero(t, k) == t[k]);
        }
    }
}

proof fn lemma_forest_dominates_rest(bs: Seq<BoxModel>)
    requires
        bs.len() > 0,
    ensures
        measure_forest(bs.drop_last()).len() <= measure_forest(bs).len(),
        forall|k: int| 0 <= k < measure_forest(bs.drop_last()).len() ==> measure_forest(bs)[k] >= #[trigger] measure_forest(bs.drop_last())[k],
        measure_forest(bs).len() == measure_forest(bs.drop_last()).len() || measure_forest(bs).len() == measure_tree(bs.last()).len(),
{
    let a = measure_forest(bs.drop_last());
    assert forall|k: int| 0 <= k < a.len() implies measure_forest(bs)[k] >= #[trigger] a[k] by {
        assert(at_or_zero(a, k) == a[k]);
    }
}

proof fn lemma_dominates_trans(w: Seq<int>, col: int, m: Seq<int>, n: Seq<int>)
    requires
        dominates(w, col, m),
        n.len() <= m.len(),
        forall|k: int| 0 <= k < n.len() ==> m[k] >= #[trigger] n[k],
    ensures
        dominates(w, col, n),
{
    assert forall|k: int| 0 <= k < n.len() implies w[col + k] >= #[trigger] n[k] by {
        assert(w[col + k] >= m[k]);
    }
}

proof fn lemma_offsets(w: Seq<int>, i: int, j: int)
    requires
        nonneg(w),
        0 <= i <= j <= w.len(),
    ensures
        prefix_offsets(w)[i] <= prefix_offsets(w)[j],
        i < w.len() ==> prefix_offsets(w)[i + 1] == prefix_offsets(w)[i] + w[i],
{
    lemma_sum_take(w, i, j);
    if i < w.len() {
        assert(w.take(i + 1).drop_last() =~= w.take(i));
        assert(w.take(i + 1).last() == w[i]);
    }
}

proof fn lemma_right_concat(a: Seq<PlacementModel>, b: Seq<PlacementModel>, m: int)
    ensures
        all_right_by(a, m) && all_right_by(b, m) ==> all_right_by(a + b, m),
        one_right_at(b, m) ==> one_right_at(a + b, m),
        one_right_at(a, m) ==> one_right_at(a + b, m),
{
    if all_right_by(a, m) && all_right_by(b, m) {
        assert forall|i: int| 0 <= i < (a + b).len() implies #[trigger] (a + b)[i].x + (a + b)[i].width <= m by {
            if i >= a.len() {
                assert((a + b)[i] == b[i - a.len()]);
            }
        }
    }
    if one_right_at(b, m) {
        let k = choose|k: int| 0 <= k < b.len() && #[trigger] b[k].x + b[k].width == m;
        assert((a + b)[a.len() + k] == b[k]);
    }
    if one_right_at(a, m) {
        let k = choose|k: int| 0 <= k < a.len() && #[trigger] a[k].x + a[k].width == m;
        assert((a + b)[k] == a[k]);
    }
}

proof fn lemma_right_weaken(ps: Seq<PlacementModel>, m: int, n: int)
    requires
        all_right_by(ps, m),
        m <= n,
    ensures
        all_right_by(ps, n),
{
}

proof fn lemma_tree_right(b: BoxModel, depth: nat, path: Seq<usize>, w: Seq<int>, start: int)
    requires
        nonneg(w),
        dominates(w, 2 * depth as int, measure_tree(b)),
    ensures
        all_right_by(tree_places(b, depth, path, prefix_offsets(w), start), prefix_offsets(w)[2 * depth as int + measure_tree(b).len()]),
        one_right_at(tree_places(b, depth, path, prefix_offsets(w), start), prefix_offsets(w)[2 * depth as int + measure_tree(b).len()]),
    decreases b,
{
    let o = prefix_offsets(w);
    let col: int = 2 * depth as int;
    let mt = measure_tree(b);
    let m = o[col + mt.len()];
    let cs = b.children;
    let rows = if cs.len() == 0 {
        Seq::empty()
    } else {
        child_rows(cs, start)
    };
    let x = o[col];
    let wd = o[col + 1] - o[col];
    let own = emit_spec(b, x, tree_row(b, start), wd, path, rows);
    let below = forest_places(cs, depth + 1, path, o, start);
    assert(mt[0] == width_spec(b));
    assert(w[col + 0] >= mt[0]);
    lemma_offsets(w, col, col + mt.len());
    lemma_offsets(w, col + 1, col + mt.len());
    assert(wd == w[col]);
    assert(own[1].x + own[1].width <= x + wd) by {
        let leftover = wd - BORDERS - interior_spec(b.label);
        assert(leftover >= 0);
    }
    assert(own[0].x + own[0].width == o[col + 1]);
    if cs.len() == 0 {
        assert(mt.len() == 1);
        assert(below =~= Seq::<PlacementModel>::empty());
        assert(all_right_by(own, m));
        assert(own[0].x + own[0].width == m);
        assert(one_right_at(own, m));
        lemma_right_concat(own, below, m);
    } else {
        lemma_child_rows(cs, start);
        let mf = measure_forest(cs);
        assert(mt == seq![width_spec(b), GAP_WIDTH as int] + mf);
        assert(mt[1] == GAP_WIDTH);
        assert(w[col + 1] >= mt[1]);
        lemma_offsets(w, col + 1, col + 2);
        lemma_offsets(w, col + 2, col + mt.len());
        assert(own[2].x + own[2].width <= o[col + 2]);
        assert(all_right_by(own, m));
        assert(dominates(w, col + 2, mf)) by {
            assert forall|k: int| 0 <= k < mf.len() implies w[col + 2 + k] >= #[trigger] mf[k] by {
                assert(mt[2 + k] == mf[k]);
                assert(w[col + (2 + k)] >= mt[2 + k]);
            }
        }
        assert(2 * (depth + 1) == col + 2);
        lemma_forest_right(cs, depth + 1, path, w, start);
        assert(col + 2 + mf.len() == col + mt.len());
        lemma_right_concat(own, below, m);
    }
    assert(tree_places(b, depth, path, o, start) == own + below);
}

proof fn lemma_forest_right(bs: Seq<BoxModel>, depth: nat, parent: Seq<usize>, w: Seq<int>, start: int)
    requires
        bs.len() > 0,
        nonneg(w),
        dominates(w, 2 * depth as int, measure_forest(bs)),
    ensures
        all_right_by(forest_places(bs, depth, parent, prefix_offsets(w), start), prefix_offsets(w)[2 * depth as int + measure_forest(bs).len()]),
        one_right_at(forest_places(bs, depth, parent, prefix_offsets(w), start), prefix_offsets(w)[2 * depth as int + measure_forest(bs).len()]),
    decreases bs,
{
    let o = prefix_offsets(w);
    let col: int = 2 * depth as int;
    let mf = measure_forest(bs);
    let m = o[col + mf.len()];
    let d = bs.drop_last();
    let next = start + 2 * leaf_count(d);
    let t = bs.last();
    let last = tree_places(t, depth, parent.push((bs.len() - 1) as usize), o, next);
    lemma_forest_dominates(bs, bs.len() - 1);
    assert(bs[bs.len() - 1] == t);
    lemma_dominates_trans(w, col, mf, measure_tree(t));
    lemma_tree_right(t, depth, parent.push((bs.len() - 1) as usize), w, next);
    lemma_offsets(w, col + measure_tree(t).len(), col + mf.len());
    lemma_right_weaken(last, o[col + measure_tree(t).len()], m);
    lemma_forest_dominates_rest(bs);
    let first = forest_places(d, depth, parent, o, start);
    if d.len() > 0 {
        lemma_dominates_trans(w, col, mf, measure_forest(d));
        lemma_forest_right(d, depth, parent, w, start);
        lemma_offsets(w, col + measure_forest(d).len(), col + mf.len());
        lemma_right_weaken(first, o[col + measure_forest(d).len()], m);
        if mf.len() == measure_forest(d).len() {
            lemma_right_concat(first, last, m);
        }
    } else {
        assert(first =~= Seq::<PlacementModel>::empty());
        assert(mf =~= merge(Seq::empty(), measure_tree(t)));
        assert(mf.len() == measure_tree(t).len());
    }
    lemma_right_concat(first, last, m);
}

proof fn lemma_right_edge(ps: Seq<PlacementModel>)
    requires
        ps.len() > 0,
    ensures
        all_right_by(ps, right_edge(ps)),
        one_right_at(ps, right_edge(ps)),
    decreases ps.len(),
{
    let n = ps.len() as int;
    if n == 1 {
        assert(ps[0].x + ps[0].width == right_edge(ps));
    } else {
        let d = ps.drop_last();
        lemma_right_edge(d);
        assert forall|i: int| 0 <= i < n implies #[trigger] ps[i].x + ps[i].width <= right_edge(ps) by {
            if i < n - 1 {
                assert(ps[i] == d[i]);
            }
        }
        if right_edge(d) >= ps.last().x + ps.last().width {
            let k = choose|k: int| 0 <= k < d.len() && #[trigger] d[k].x + d[k].width == right_edge(d);
            assert(ps[k] == d[k]);
        } else {
            assert(ps[n - 1].x + ps[n - 1].width == right_edge(ps));
        }
    }
}

/// The layout of a forest reaches right to the end of its last column:
/// the widest box of each depth, and the arrow gap after each depth that has
/// children, side by side.
pub proof fn law_layout_width(bs: Seq<BoxModel>)
    ensures
        bs.len() > 0 ==> right_edge(diagram_spec(bs)) == seq_sum(measure_forest(bs)),
{
    if bs.len() > 0 {
        let w = measure_forest(bs);
        let o = prefix_offsets(w);
        let ps = forest_places(bs, 0, Seq::empty(), o, 0);
        lemma_measure_bound(bs);
        assert(dominates(w, 0, w)) by {
            assert forall|k: int| 0 <= k < w.len() implies w[0 + k] >= #[trigger] w[k] by {}
        }
        lemma_forest_right(bs, 0, Seq::empty(), w, 0);
        let m = o[w.len() as int];
        assert(w.take(w.len() as int) =~= w);
        assert(m == seq_sum(w));
        let a = ps.filter(box_filter());
        let r = ps.filter(rest_filter());
        let q = a + r;
        assert(diagram_spec(bs) == q);
        assert forall|i: int| 0 <= i < q.len() implies #[trigger] q[i].x + q[i].width <= m by {
            if i < a.len() {
                ps.lemma_filter_contains_rev(box_filter(), a[i]);
                assert(a.contains(a[i]));
                let k = choose|k: int| 0 <= k < ps.len() && ps[k] == a[i];
                assert(ps[k].x + ps[k].width <= m);
            } else {
                assert(q[i] == r[i - a.len()]);
                ps.lemma_filter_contains_rev(rest_filter(), r[i - a.len()]);
                assert(r.contains(r[i - a.len()]));
                let k = choose|k: int| 0 <= k < ps.len() && ps[k] == r[i - a.len()];
                assert(ps[k].x + ps[k].width <= m);
            }
        }
        let k = choose|k: int| 0 <= k < ps.len() && #[trigger] ps[k].x + ps[k].width == m;
        if ps[k].node is Box {
            ps.lemma_filter_contains(box_filter(), k);
            let j = choose|j: int| 0 <= j < a.len() && a[j] == ps[k];
            assert(q[j] == a[j]);
        } else {
            ps.lemma_filter_contains(rest_filter(), k);
            let j = choose|j: int| 0 <= j < r.len() && r[j] == ps[k];
            assert(q[a.len() + j] == r[j]);
        }
        lemma_right_edge(q);
        assert(one_right_at(q, m));
        let j = choose|j: int| 0 <= j < q.len() && #[trigger] q[j].x + q[j].width == m;
        let i = choose|i: int| 0 <= i < q.len() && #[trigger] q[i].x + q[i].width == right_edge(q);
    }
}

/// Every gap column of a tree's widths, the odd ones, is as wide as the
/// arrows that cross it.
pub proof fn law_gap_columns_tree(b: BoxModel)
    ensures
        forall|k: int| 0 <= k < measure_tree(b).len() && k % 2 == 1 ==> #[trigger] measure_tree(b)[k] == GAP_WIDTH,
    decreases b,
{
    if b.children.len() > 0 {
        let mf = measure_forest(b.children);
        law_gap_columns_forest(b.children);
        let m = measure_tree(b);
        assert forall|k: int| 0 <= k < m.len() && k % 2 == 1 implies #[trigger] m[k] == GAP_WIDTH by {
            if k >= 2 {
                assert(m[k] == mf[k - 2]);
                assert((k - 2) % 2 == 1);
            }
        }
    }
}

/// Every gap column of a forest's widths, the odd ones, is as wide as the
/// arrows that cross it.
pub proof fn law_gap_columns_forest(bs: Seq<BoxModel>)
    ensures
        forall|k: int| 0 <= k < measure_forest(bs).len() && k % 2 == 1 ==> #[trigger] measure_forest(bs)[k] == GAP_WIDTH,
    decreases bs,
{
    if bs.len() > 0 {
        let a = measure_forest(bs.drop_last());
        let t = measure_tree(bs.last());
        law_gap_columns_forest(bs.drop_last());
        law_gap_columns_tree(bs.last());
        let m = measure_forest(bs);
        assert forall|k: int| 0 <= k < m.len() && k % 2 == 1 implies #[trigger] m[k] == GAP_WIDTH by {
            if k < a.len() {
                assert(a[k] == GAP_WIDTH);
            }
            if k < t.len() {
                assert(t[k] == GAP_WIDTH);
            }
        }
    }
}

/// A parent's arrow spans the whole gap after its column: it starts at the
/// parent's right edge and ends where its children's column starts, when
/// every gap column is as wide as the arrows.
pub proof fn law_arrow_spans_the_gap(b: BoxModel, depth: nat, path: Seq<usize>, w: Seq<int>, start: int)
    requires
        b.children.len() > 0,
        2 * depth + 2 <= w.len(),
        forall|k: int| 0 <= k < w.len() && k % 2 == 1 ==> #[trigger] w[k] == GAP_WIDTH,
    ensures
        ({
            let o = prefix_offsets(w);
            let ps = tree_places(b, depth, path, o, start);
            &&& ps[2].node is Arrow
            &&& ps[2].x == ps[0].x + ps[0].width
            &&& ps[2].x + ps[2].width == o[2 * depth as int + 2]
        }),
{
    let o = prefix_offsets(w);
    let i: int = 2 * depth as int + 1;
    law_box_label_arrow(b, depth, path, o, start);
    assert(w.take(i + 1).drop_last() =~= w.take(i));
    assert(w.take(i + 1).last() == w[i]);
    assert(w[i] == GAP_WIDTH);
    assert(o[i + 1] == o[i] + w[i]);
}

/// In the layout of a forest, every parent's arrow reaches from the
/// parent's right edge to its children's column.
pub proof fn law_diagram_arrows_reach_children(bs: Seq<BoxModel>, b: BoxModel, depth: nat, path: Seq<usize>, start: int)
    requires
        b.children.len() > 0,
        2 * depth + 2 <= measure_forest(bs).len(),
    ensures
        ({
            let o = prefix_offsets(measure_forest(bs));
            let ps = tree_places(b, depth, path, o, start);
            ps[2].x + ps[2].width == o[2 * depth as int + 2]
        }),
{
    law_gap_columns_forest(bs);
    law_arrow_spans_the_gap(b, depth, path, measure_forest(bs), start);
}

/// A parent's arrow leaves from the middle row of the parent's box and has
/// one stop for each child, on the middle row of that child's box (its
/// label's row), in the children's order; it is as tall as from the first
/// child's middle row to the last's.
pub proof fn law_arrow_points_at_children(b: BoxModel, depth: nat, path: Seq<usize>, offsets: Seq<int>, start: int)
    requires
        b.children.len() > 0,
    ensures
        ({
            let ps = tree_places(b, depth, path, offsets, start);
            &&& ps[2].node matches PlacementNodeModel::Arrow { stops, shaft } && {
                &&& stops.len() == b.children.len()
                &&& ps[2].y + shaft == ps[0].y + 1
                &&& forall|j: int|
                    0 <= j < stops.len() ==> ps[2].y + #[trigger] stops[j] == tree_row(
                        b.children[j],
                        start + 2 * leaf_count(b.children.take(j)),
                    ) * HALF_PITCH + 1
                &&& ps[2].height == stops[stops.len() - 1] - stops[0] + 1
            }
        }),
{
    let ps = tree_places(b, depth, path, offsets, start);
    let rows = child_rows(b.children, start);
    let col: int = 2 * depth as int;
    let e = emit_spec(b, offsets[col], tree_row(b, start), offsets[col + 1] - offsets[col], path, rows);
    let kids = forest_places(b.children, depth + 1, path, offsets, start);
    lemma_child_rows(b.children, start);
    lemma_child_rows_are_rows(b.children, start);
    assert(ps == e + kids);
    assert(ps[0] == e[0]);
    assert(ps[2] == e[2]);
}

} // verus!
