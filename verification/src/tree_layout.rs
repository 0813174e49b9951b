//! Where the boxes of the box-tree editor go on a grid: each box in the
//! column of its depth, each leaf on the next free row, and each parent
//! level with the middle of its children.
use vstd::prelude::*;
use crate::layout::{interior, interior_spec, BORDERS, BOX_HEIGHT, LAYOUT_LIMIT, LEAF_STRIDE};
use crate::tree_editor::{copy_node, prefix, trees, Node, Tree};

verus! {

/// How wide a box is: its label and a border on each side.
pub fn width(node: &Node) -> (r: i64)
    requires
        node.label@.len() <= LAYOUT_LIMIT,
    ensures
        r == interior_spec(node.label@) + BORDERS,
{
    interior(node.label.as_str()) + BORDERS
}

/// How tall a box is: always one row of text between two borders.
pub fn height(node: &Node) -> (r: i64)
    ensures
        r == BOX_HEIGHT,
{
    BOX_HEIGHT
}

/// A box with its place: its width, its column and row, its path from the
/// top, and its children placed in turn.
#[derive(Debug, PartialEq)]
pub struct Celled {
    pub box_: Node,
    pub width: i64,
    pub column: i64,
    pub row: i64,
    pub path: Vec<i64>,
    pub children: Vec<Celled>,
}

/// A placed box as a mathematical value.
#[verifier::ext_equal]
pub struct CellModel {
    pub tree: Tree,
    pub width: int,
    pub column: int,
    pub row: int,
    pub path: Seq<i64>,
    pub children: Seq<CellModel>,
}

pub open spec fn cell(c: Celled) -> CellModel
    decreases c,
{
    CellModel {
        tree: c.box_@,
        width: c.width as int,
        column: c.column as int,
        row: c.row as int,
        path: c.path@,
        children: cells(c.children@),
    }
}

pub open spec fn cells(cs: Seq<Celled>) -> Seq<CellModel>
    decreases cs,
{
    if cs.len() == 0 {
        Seq::empty()
    } else {
        cells(cs.drop_last()).push(cell(cs.last()))
    }
}

impl View for Celled {
    type V = CellModel;

    open spec fn view(&self) -> CellModel {
        cell(*self)
    }
}

pub proof fn lemma_cells(cs: Seq<Celled>)
    ensures
        cells(cs).len() == cs.len(),
        forall|i: int| 0 <= i < cs.len() ==> #[trigger] cells(cs)[i] == cell(cs[i]),
    decreases cs.len(),
{
    if cs.len() > 0 {
        lemma_cells(cs.drop_last());
    }
}

proof fn lemma_cells_push(cs: Seq<Celled>, c: Celled)
    ensures
        cells(cs.push(c)) == cells(cs).push(cell(c)),
{
    assert(cs.push(c).drop_last() =~= cs);
}

/// How many boxes a tree holds.
pub open spec fn size(t: Tree) -> nat
    decreases t,
{
    1 + size_all(t.children)
}

/// How many boxes a forest holds.
pub open spec fn size_all(ts: Seq<Tree>) -> nat
    decreases ts,
{
    if ts.len() == 0 {
        0
    } else {
        size_all(ts.drop_last()) + size(ts.last())
    }
}

/// Every label of a tree is short enough to measure.
pub open spec fn labels_fit(t: Tree) -> bool
    decreases t,
{
    t.label.len() <= LAYOUT_LIMIT && labels_fit_all(t.children)
}

pub open spec fn labels_fit_all(ts: Seq<Tree>) -> bool
    decreases ts,
{
    ts.len() == 0 || (labels_fit_all(ts.drop_last()) && labels_fit(ts.last()))
}

/// The row of a parent: the middle child's row for an odd number of
/// children, else one past the row of the child before the middle.
pub open spec fn anchor_spec(cs: Seq<CellModel>) -> int {
    let middle = cs.len() / 2;
    if cs.len() % 2 == 1 {
        cs[middle as int].row
    } else {
        cs[middle - 1].row + 1
    }
}

/// The row of a parent, from its placed children.
pub fn anchor(children: &[Celled]) -> (r: i64)
    requires
        children.len() > 0,
        children.len() % 2 == 0 ==> children@[children.len() / 2 - 1].row < i64::MAX,
    ensures
        r == anchor_spec(cells(children@)),
{
    proof {
        lemma_cells(children@);
    }
    let middle = children.len() / 2;
    if children.len() % 2 == 1 {
        children[middle].row
    } else {
        children[middle - 1].row + 1
    }
}

/// A tree placed from `column` and the next free row `free`: a leaf takes
/// the free row and moves it on by the leaf stride; a parent places its
/// children one after another in the next column, each with its index
/// added to the path, and sits level with them. The second part is the next
/// free row after the tree.
pub open spec fn assign_spec(t: Tree, column: int, path: Seq<i64>, free: int) -> (CellModel, int)
    decreases t,
{
    if t.children.len() == 0 {
        (
            CellModel {
                tree: t,
                width: interior_spec(t.label) + BORDERS,
                column,
                row: free,
                path,
                children: Seq::empty(),
            },
            free + LEAF_STRIDE,
        )
    } else {
        let placed = assign_all(t.children, column + 1, path, free);
        (
            CellModel {
                tree: t,
                width: interior_spec(t.label) + BORDERS,
                column,
                row: anchor_spec(placed.0),
                path,
                children: placed.0,
            },
            placed.1,
        )
    }
}

/// Trees placed one after another in `column` from the free row `free`,
/// the `i`th with `i` added to `path`, and the free row after them.
pub open spec fn assign_all(ts: Seq<Tree>, column: int, path: Seq<i64>, free: int) -> (Seq<CellModel>, int)
    decreases ts,
{
    if ts.len() == 0 {
        (Seq::empty(), free)
    } else {
        let before = assign_all(ts.drop_last(), column, path, free);
        let last = assign_spec(ts.last(), column, path.push((ts.len() - 1) as i64), before.1);
        (before.0.push(last.0), last.1)
    }
}

proof fn lemma_size_prefix(ts: Seq<Tree>, i: int)
    requires
        0 <= i <= ts.len(),
    ensures
        size_all(ts.take(i)) <= size_all(ts),
        size_all(ts) >= ts.len(),
    decreases ts.len(),
{
    if ts.len() > 0 {
        assert(size(ts.last()) >= 1);
        if i == ts.len() {
            assert(ts.take(i) =~= ts);
            lemma_size_prefix(ts.drop_last(), 0);
        } else {
            assert(ts.drop_last().take(i) =~= ts.take(i));
            lemma_size_prefix(ts.drop_last(), i);
        }
    }
}

proof fn lemma_labels_prefix(ts: Seq<Tree>, i: int)
    requires
        0 <= i <= ts.len(),
        labels_fit_all(ts),
    ensures
        labels_fit_all(ts.take(i)),
        forall|j: int| 0 <= j < ts.len() ==> labels_fit(#[trigger] ts[j]),
    decreases ts.len(),
{
    if ts.len() > 0 {
        if i == ts.len() {
            assert(ts.take(i) =~= ts);
            lemma_labels_prefix(ts.drop_last(), 0);
        } else {
            assert(ts.drop_last().take(i) =~= ts.take(i));
            lemma_labels_prefix(ts.drop_last(), i);
        }
        assert forall|j: int| 0 <= j < ts.len() implies labels_fit(#[trigger] ts[j]) by {
            if j < ts.len() - 1 {
                assert(ts[j] == ts.drop_last()[j]);
            }
        }
    }
}

/// Placing a tree takes at least one leaf stride and at most one per box,
/// and puts the tree on one of the rows it takes.
proof fn lemma_assign(t: Tree, column: int, path: Seq<i64>, free: int)
    ensures
        free + LEAF_STRIDE <= assign_spec(t, column, path, free).1 <= free + LEAF_STRIDE * size(t),
        t.children.len() == 0 ==> assign_spec(t, column, path, free).0.row == free,
        t.children.len() > 0 ==> free <= anchor_spec(assign_spec(t, column, path, free).0.children)
            < assign_spec(t, column, path, free).1,
    decreases t,
{
    if t.children.len() > 0 {
        lemma_assign_all(t.children, column + 1, path, free);
        let placed = assign_all(t.children, column + 1, path, free);
        let n = t.children.len();
        let m = n / 2;
        if n % 2 == 1 {
            assert(free <= placed.0[m as int].row < placed.1);
        } else {
            assert(placed.0[m - 1].row < placed.1 - LEAF_STRIDE * (n - 1 - (m - 1)));
        }
    }
}

/// Placing a forest takes a leaf stride per tree at least and one per box
/// at most, and each tree's row is at or after the starting row and leaves
/// a stride for each tree after it.
proof fn lemma_assign_all(ts: Seq<Tree>, column: int, path: Seq<i64>, free: int)
    ensures
        assign_all(ts, column, path, free).0.len() == ts.len(),
        free + LEAF_STRIDE * ts.len() <= assign_all(ts, column, path, free).1 <= free + LEAF_STRIDE
            * size_all(ts),
        forall|i: int|
            0 <= i < ts.len() ==> free <= (#[trigger] assign_all(ts, column, path, free).0[i]).row
                < assign_all(ts, column, path, free).1 - LEAF_STRIDE * (ts.len() - 1 - i),
    decreases ts,
{
    if ts.len() > 0 {
        let before = assign_all(ts.drop_last(), column, path, free);
        lemma_assign_all(ts.drop_last(), column, path, free);
        lemma_assign(ts.last(), column, path.push((ts.len() - 1) as i64), before.1);
        let last = assign_spec(ts.last(), column, path.push((ts.len() - 1) as i64), before.1);
        let all = assign_all(ts, column, path, free);
        assert forall|i: int| 0 <= i < ts.len() implies free <= (#[trigger] all.0[i]).row < all.1
            - LEAF_STRIDE * (ts.len() - 1 - i) by {
            if i < ts.len() - 1 {
                assert(all.0[i] == before.0[i]);
            }
        }
    }
}

/// A copy of a placed box and everything under it.
pub fn copy_cell(c: &Celled) -> (r: Celled)
    ensures
        r@ == c@,
    decreases c,
{
    let r = Celled {
        box_: copy_node(&c.box_),
        width: c.width,
        column: c.column,
        row: c.row,
        path: prefix(c.path.as_slice(), c.path.len()),
        children: copy_cells(&c.children),
    };
    proof {
        assert(c.path@.take(c.path@.len() as int) =~= c.path@);
    }
    r
}

/// A copy of a list of placed boxes.
pub fn copy_cells(cs: &Vec<Celled>) -> (r: Vec<Celled>)
    ensures
        cells(r@) == cells(cs@),
    decreases cs,
{
    let mut r: Vec<Celled> = Vec::new();
    let mut i: usize = 0;
    while i < cs.len()
        invariant
            i <= cs.len(),
            cells(r@) == cells(cs@.take(i as int)),
        decreases cs.len() - i,
    {
        proof {
            assert(decreases_to!(cs => cs@));
            assert(decreases_to!(cs@ => cs@[i as int]));
        }
        let c = copy_cell(&cs[i]);
        proof {
            lemma_cells_push(r@, c);
            lemma_cells_push(cs@.take(i as int), cs@[i as int]);
            assert(cs@.take(i as int).push(cs@[i as int]) =~= cs@.take(i + 1));
        }
        r.push(c);
        i = i + 1;
    }
    proof {
        assert(cs@.take(i as int) =~= cs@);
    }
    r
}

/// A path with one more index.
fn extended(path: &Vec<i64>, i: i64) -> (r: Vec<i64>)
    ensures
        r@ == path@.push(i),
{
    let mut r = prefix(path.as_slice(), path.len());
    proof {
        assert(path@.take(path@.len() as int) =~= path@);
    }
    r.push(i);
    r
}

/// Places a tree from `column` and the free row `free`; gives the placed
/// tree and the next free row.
pub fn assign(node: &Node, column: i64, path: Vec<i64>, free: i64) -> (r: (Celled, i64))
    requires
        labels_fit(node@),
        0 <= column,
        column + size(node@) <= i64::MAX,
        0 <= free,
        free + LEAF_STRIDE * size(node@) <= i64::MAX,
    ensures
        r.0@ == assign_spec(node@, column as int, path@, free as int).0,
        r.1 == assign_spec(node@, column as int, path@, free as int).1,
    decreases node,
{
    let ghost kids = node@.children;
    proof {
        lemma_assign(node@, column as int, path@, free as int);
        crate::tree_editor::lemma_trees(node.children@);
        assert(kids == trees(node.children@));
    }
    let w = width(node);
    if node.children.len() == 0 {
        let c = Celled { box_: copy_node(node), width: w, column, row: free, path, children: Vec::new() };
        proof {
            assert(cells(c.children@) =~= Seq::<CellModel>::empty());
            assert(c@ =~= assign_spec(node@, column as int, path@, free as int).0);
        }
        return (c, free + LEAF_STRIDE);
    }
    proof {
        lemma_size_prefix(kids, kids.len() as int);
        lemma_labels_prefix(kids, 0);
    }
    let mut children: Vec<Celled> = Vec::new();
    let mut next = free;
    let mut i: usize = 0;
    while i < node.children.len()
        invariant
            i <= node.children.len(),
            kids == trees(node.children@),
            kids.len() == node.children.len(),
            cells(children@) == assign_all(kids.take(i as int), column + 1, path@, free as int).0,
            next == assign_all(kids.take(i as int), column + 1, path@, free as int).1,
            forall|j: int| 0 <= j < kids.len() ==> labels_fit(#[trigger] kids[j]),
            size_all(kids) >= kids.len(),
            0 <= column,
            column + 1 + size_all(kids) <= i64::MAX,
            0 <= free,
            free + LEAF_STRIDE * size_all(kids) <= i64::MAX,
        decreases node.children.len() - i,
    {
        proof {
            assert(decreases_to!(*node => node.children));
            assert(decreases_to!(node.children => node.children@));
            assert(decreases_to!(node.children@ => node.children@[i as int]));
            lemma_assign_all(kids.take(i as int), column + 1, path@, free as int);
            lemma_size_prefix(kids, i + 1);
            assert(kids.take(i + 1).drop_last() =~= kids.take(i as int));
            assert(kids.take(i + 1).last() == kids[i as int]);
            crate::tree_editor::lemma_trees(node.children@);
            assert(kids[i as int] == node.children@[i as int]@);
        }
        let child_path = extended(&path, i as i64);
        let (c, f) = assign(&node.children[i], column + 1, child_path, next);
        proof {
            lemma_cells_push(children@, c);
        }
        children.push(c);
        next = f;
        i = i + 1;
    }
    proof {
        assert(kids.take(i as int) =~= kids);
        lemma_assign_all(kids, column + 1, path@, free as int);
        lemma_cells(children@);
        let m = (kids.len() / 2) as int;
        if kids.len() % 2 == 0 {
            assert(cells(children@)[m - 1].row == children@[m - 1].row);
        }
    }
    let row = anchor(children.as_slice());
    let c = Celled { box_: copy_node(node), width: w, column, row, path, children };
    proof {
        assert(c@ =~= assign_spec(node@, column as int, path@, free as int).0);
    }
    (c, next)
}

/// The forest placed from the first column and row, the `i`th tree with
/// the path `[i]`.
pub open spec fn forest_spec(boxes: Seq<Tree>) -> Seq<CellModel> {
    assign_all(boxes, 0, Seq::empty(), 0).0
}

/// Places every top-level box, threading the free row from one tree to the
/// next.
pub fn forest(boxes: &[Node]) -> (r: Vec<Celled>)
    requires
        labels_fit_all(trees(boxes@)),
        LEAF_STRIDE * size_all(trees(boxes@)) <= i64::MAX,
    ensures
        cells(r@) == forest_spec(trees(boxes@)),
{
    let ghost ts = trees(boxes@);
    proof {
        crate::tree_editor::lemma_trees(boxes@);
        lemma_size_prefix(ts, ts.len() as int);
        lemma_labels_prefix(ts, 0);
    }
    let mut placed: Vec<Celled> = Vec::new();
    let mut free: i64 = 0;
    let mut i: usize = 0;
    let top: Vec<i64> = Vec::new();
    while i < boxes.len()
        invariant
            i <= boxes.len(),
            ts == trees(boxes@),
            ts.len() == boxes.len(),
            top@ == Seq::<i64>::empty(),
            cells(placed@) == assign_all(ts.take(i as int), 0, Seq::empty(), 0).0,
            free == assign_all(ts.take(i as int), 0, Seq::empty(), 0).1,
            forall|j: int| 0 <= j < ts.len() ==> labels_fit(#[trigger] ts[j]),
            size_all(ts) >= ts.len(),
            LEAF_STRIDE * size_all(ts) <= i64::MAX,
        decreases boxes.len() - i,
    {
        proof {
            lemma_assign_all(ts.take(i as int), 0, Seq::empty(), 0);
            lemma_size_prefix(ts, i + 1);
            assert(ts.take(i + 1).drop_last() =~= ts.take(i as int));
            assert(ts.take(i + 1).last() == ts[i as int]);
            crate::tree_editor::lemma_trees(boxes@);
            assert(ts[i as int] == boxes@[i as int]@);
        }
        let path = extended(&top, i as i64);
        let (c, f) = assign(&boxes[i], 0, path, free);
        proof {
            lemma_cells_push(placed@, c);
        }
        placed.push(c);
        free = f;
        i = i + 1;
    }
    proof {
        assert(ts.take(i as int) =~= ts);
    }
    placed
}

/// Every placed box of a forest in pre-order: each tree's root, then its
/// children's trees, before the next tree.
pub open spec fn walk_spec(cs: Seq<CellModel>) -> Seq<CellModel>
    decreases cs,
{
    if cs.len() == 0 {
        Seq::empty()
    } else {
        let last = cs.last();
        walk_spec(cs.drop_last()) + seq![last] + walk_spec(last.children)
    }
}

proof fn lemma_cells_append(a: Seq<Celled>, b: Seq<Celled>)
    ensures
        cells(a + b) == cells(a) + cells(b),
    decreases b.len(),
{
    if b.len() == 0 {
        assert(a + b =~= a);
        assert(cells(a) + cells(b) =~= cells(a));
    } else {
        lemma_cells_append(a, b.drop_last());
        assert((a + b).drop_last() =~= a + b.drop_last());
        assert((a + b).last() == b.last());
        assert(cells(a) + cells(b) =~= cells(a) + cells(b.drop_last()) + seq![cell(b.last())]);
        assert(cells(a + b.drop_last()).push(cell(b.last())) =~= cells(a) + cells(b.drop_last()) + seq![
            cell(b.last()),
        ]);
    }
}

/// Every placed box of a forest in pre-order.
pub fn walk(nodes: &Vec<Celled>) -> (r: Vec<Celled>)
    ensures
        cells(r@) == walk_spec(cells(nodes@)),
    decreases nodes,
{
    let mut out: Vec<Celled> = Vec::new();
    let mut i: usize = 0;
    while i < nodes.len()
        invariant
            i <= nodes.len(),
            cells(out@) == walk_spec(cells(nodes@.take(i as int))),
        decreases nodes.len() - i,
    {
        proof {
            assert(decreases_to!(nodes => nodes@));
            assert(decreases_to!(nodes@ => nodes@[i as int]));
            assert(decreases_to!(nodes@[i as int] => nodes@[i as int].children));
        }
        let ghost before = out@;
        let c = copy_cell(&nodes[i]);
        out.push(c);
        let mut sub = walk(&nodes[i].children);
        let ghost pushed = out@;
        let ghost subs = sub@;
        out.append(&mut sub);
        proof {
            lemma_cells_push(before, c);
            lemma_cells_append(pushed, subs);
            lemma_cells_push(nodes@.take(i as int), nodes@[i as int]);
            assert(nodes@.take(i + 1) =~= nodes@.take(i as int).push(nodes@[i as int]));
            let ms = cells(nodes@.take(i + 1));
            assert(ms.drop_last() == cells(nodes@.take(i as int)));
            assert(ms.last() == cell(nodes@[i as int]));
            assert(cells(out@) =~= walk_spec(ms));
        }
        i = i + 1;
    }
    proof {
        assert(nodes@.take(i as int) =~= nodes@);
    }
    out
}proof fn lemma_walk_tree(t: Tree, column: int, path: Seq<i64>, free: int)
    ensures
        walk_spec(assign_spec(t, column, path, free).0.children).len() + 1 == size(t),
    decreases t,
{
    if t.children.len() > 0 {
        lemma_walk_forest(t.children, column + 1, path, free);
    } else {
        assert(t.children =~= Seq::<Tree>::empty());
    }
}

proof fn lemma_walk_forest(ts: Seq<Tree>, column: int, path: Seq<i64>, free: int)
    ensures
        walk_spec(assign_all(ts, column, path, free).0).len() == size_all(ts),
    decreases ts,
{
    if ts.len() > 0 {
        let before = assign_all(ts.drop_last(), column, path, free);
        lemma_walk_forest(ts.drop_last(), column, path, free);
        lemma_walk_tree(ts.last(), column, path.push((ts.len() - 1) as i64), before.1);
        let all = assign_all(ts, column, path, free).0;
        assert(all.drop_last() =~= before.0);
    }
}

/// The walk of a placed forest lists each of its boxes once: as many
/// placed boxes as the forest holds.
pub proof fn law_walk_lists_every_box(boxes: Seq<Tree>)
    ensures
        walk_spec(forest_spec(boxes)).len() == size_all(boxes),
{
    lemma_walk_forest(boxes, 0, Seq::empty(), 0);
}

} // verus!
