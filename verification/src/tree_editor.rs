//! The box-tree editor behind the scripting binding: boxes with integer
//! colours, a selection written as a list of indices, and a mode by name.
use vstd::prelude::*;
use crate::text::{chars_of, owned, push_char, string_of};

verus! {

/// The colour and fill of a box that has none.
pub const PLAIN: i64 = -1;

/// How many colours the palette holds.
pub const PALETTE_SIZE: i64 = 5;

/// The blank that ends a label while it is being typed.
pub const PAD: &'static str = " ";

/// The name of the mode in which keys run commands.
pub const COMMAND_MODE: &'static str = "command";

/// The name of the mode in which keys type into a label.
pub const INSERT_MODE: &'static str = "insert";

/// A box: its label, colour, fill and corners, and the boxes nested in it.
#[derive(Debug, PartialEq)]
pub struct Node {
    pub label: String,
    pub colour: i64,
    pub fill: i64,
    pub rounded: bool,
    pub children: Vec<Node>,
}

/// A box as a mathematical value.
#[verifier::ext_equal]
pub struct Tree {
    pub label: Seq<char>,
    pub colour: i64,
    pub fill: i64,
    pub rounded: bool,
    pub children: Seq<Tree>,
}

pub open spec fn tree(n: Node) -> Tree
    decreases n,
{
    Tree {
        label: n.label@,
        colour: n.colour,
        fill: n.fill,
        rounded: n.rounded,
        children: trees(n.children@),
    }
}

pub open spec fn trees(ns: Seq<Node>) -> Seq<Tree>
    decreases ns,
{
    if ns.len() == 0 {
        Seq::empty()
    } else {
        trees(ns.drop_last()).push(tree(ns.last()))
    }
}

impl View for Node {
    type V = Tree;

    open spec fn view(&self) -> Tree {
        tree(*self)
    }
}

pub proof fn lemma_trees(ns: Seq<Node>)
    ensures
        trees(ns).len() == ns.len(),
        forall|i: int| 0 <= i < ns.len() ==> #[trigger] trees(ns)[i] == tree(ns[i]),
    decreases ns.len(),
{
    if ns.len() > 0 {
        lemma_trees(ns.drop_last());
    }
}

proof fn lemma_trees_push(ns: Seq<Node>, n: Node)
    ensures
        trees(ns.push(n)) == trees(ns).push(tree(n)),
{
    assert(ns.push(n).drop_last() =~= ns);
}

proof fn lemma_trees_update(ns: Seq<Node>, i: int, n: Node)
    requires
        0 <= i < ns.len(),
    ensures
        trees(ns.update(i, n)) == trees(ns).update(i, tree(n)),
{
    lemma_trees(ns);
    lemma_trees(ns.update(i, n));
    assert(trees(ns.update(i, n)) =~= trees(ns).update(i, tree(n)));
}

/// A blank box: no label, plain colour and fill, square corners, no children.
pub open spec fn blank() -> Tree {
    Tree { label: Seq::empty(), colour: PLAIN, fill: PLAIN, rounded: false, children: Seq::empty() }
}

/// The box that a new box starts as: a label of one pad.
pub open spec fn padded() -> Tree {
    Tree { label: seq![' '], ..blank() }
}

impl Default for Node {
    fn default() -> (r: Self)
        ensures
            r@ == blank(),
    {
        let r = Node {
            label: String::new(),
            colour: PLAIN,
            fill: PLAIN,
            rounded: false,
            children: Vec::new(),
        };
        proof {
            assert(trees(r.children@) =~= Seq::<Tree>::empty());
            assert(r@ =~= blank());
        }
        r
    }
}

impl Node {
    /// A box with the given parts.
    pub fn new(label: String, colour: i64, fill: i64, rounded: bool, children: Vec<Node>) -> (r: Self)
        ensures
            r@ == (Tree { label: label@, colour, fill, rounded, children: trees(children@) }),
    {
        Node { label, colour, fill, rounded, children }
    }
}

fn padded_node() -> (r: Node)
    ensures
        r@ == padded(),
{
    proof {
        reveal_strlit(" ");
    }
    let r = Node { label: owned(PAD), colour: PLAIN, fill: PLAIN, rounded: false, children: Vec::new() };
    proof {
        assert(trees(r.children@) =~= Seq::<Tree>::empty());
        assert(r@ =~= padded());
    }
    r
}

/// A copy of a box and everything under it.
pub fn copy_node(n: &Node) -> (r: Node)
    ensures
        r@ == n@,
    decreases n,
{
    Node {
        label: n.label.clone(),
        colour: n.colour,
        fill: n.fill,
        rounded: n.rounded,
        children: copy_nodes(&n.children),
    }
}

/// A copy of a list of boxes.
pub fn copy_nodes(ns: &Vec<Node>) -> (r: Vec<Node>)
    ensures
        trees(r@) == trees(ns@),
    decreases ns,
{
    let mut r: Vec<Node> = Vec::new();
    let mut i: usize = 0;
    while i < ns.len()
        invariant
            i <= ns.len(),
            trees(r@) == trees(ns@.take(i as int)),
        decreases ns.len() - i,
    {
        proof {
            assert(decreases_to!(ns => ns@));
            assert(decreases_to!(ns@ => ns@[i as int]));
        }
        let c = copy_node(&ns[i]);
        proof {
            lemma_trees_push(r@, c);
            lemma_trees_push(ns@.take(i as int), ns@[i as int]);
            assert(ns@.take(i as int).push(ns@[i as int]) =~= ns@.take(i + 1));
        }
        r.push(c);
        i = i + 1;
    }
    proof {
        assert(ns@.take(i as int) =~= ns@);
    }
    r
}

/// A copy of a run of boxes.
pub fn copy_slice(ns: &[Node]) -> (r: Vec<Node>)
    ensures
        trees(r@) == trees(ns@),
{
    let mut r: Vec<Node> = Vec::new();
    let mut i: usize = 0;
    while i < ns.len()
        invariant
            i <= ns.len(),
            trees(r@) == trees(ns@.take(i as int)),
        decreases ns.len() - i,
    {
        let c = copy_node(&ns[i]);
        proof {
            lemma_trees_push(r@, c);
            lemma_trees_push(ns@.take(i as int), ns@[i as int]);
            assert(ns@.take(i as int).push(ns@[i as int]) =~= ns@.take(i + 1));
        }
        r.push(c);
        i = i + 1;
    }
    proof {
        assert(ns@.take(i as int) =~= ns@);
    }
    r
}

impl Clone for Node {
    fn clone(&self) -> (r: Self)
        ensures
            r@ == self@,
    {
        copy_node(self)
    }
}

/// The colour after `colour`: plain, then each palette colour in turn, then
/// plain again.
pub open spec fn next_colour_spec(colour: int) -> int {
    (colour + 2) % (PALETTE_SIZE + 1) - 1
}

/// The colour after `colour` on the palette cycle.
pub fn next_colour(colour: i64) -> (r: i64)
    requires
        colour <= i64::MAX - 2,
    ensures
        r == next_colour_spec(colour as int),
        PLAIN <= r < PALETTE_SIZE,
{
    let m: i64 = (colour + 2) % (PALETTE_SIZE + 1);
    let m: i64 = if m < 0 {
        m + (PALETTE_SIZE + 1)
    } else {
        m
    };
    m - 1
}

/// A path leads from the top-level boxes through existing children: it is
/// not empty and every index is in range.
pub open spec fn valid(boxes: Seq<Tree>, path: Seq<i64>) -> bool
    decreases path.len(),
{
    &&& path.len() > 0
    &&& 0 <= path[0] < boxes.len()
    &&& (path.len() == 1 || valid(boxes[path[0] as int].children, path.drop_first()))
}

/// The box that a valid path leads to.
pub open spec fn at_spec(boxes: Seq<Tree>, path: Seq<i64>) -> Tree
    decreases path.len(),
{
    if path.len() <= 1 {
        boxes[path[0] as int]
    } else {
        at_spec(boxes[path[0] as int].children, path.drop_first())
    }
}

/// The boxes with the box that `path` leads to replaced by `new`.
pub open spec fn with_node(boxes: Seq<Tree>, path: Seq<i64>, new: Tree) -> Seq<Tree>
    decreases path.len(),
{
    if path.len() <= 1 {
        boxes.update(path[0] as int, new)
    } else {
        let i = path[0] as int;
        boxes.update(i, Tree { children: with_node(boxes[i].children, path.drop_first(), new), ..boxes[i] })
    }
}

/// The list of boxes that holds the box a path leads to: the top-level boxes
/// for a path of one index, else the children of the parent.
pub open spec fn siblings(boxes: Seq<Tree>, parent: Seq<i64>) -> Seq<Tree> {
    if parent.len() == 0 {
        boxes
    } else {
        at_spec(boxes, parent).children
    }
}

/// The boxes with the list at `parent` replaced by `new`.
pub open spec fn with_siblings(boxes: Seq<Tree>, parent: Seq<i64>, new: Seq<Tree>) -> Seq<Tree> {
    if parent.len() == 0 {
        new
    } else {
        with_node(boxes, parent, Tree { children: new, ..at_spec(boxes, parent) })
    }
}

/// An empty selection, or a valid path.
pub open spec fn selection_ok(boxes: Seq<Tree>, path: Seq<i64>) -> bool {
    path.len() == 0 || valid(boxes, path)
}

/// A box on a valid path, found in place.
fn at_ref<'a>(nodes: &'a [Node], path: &[i64], depth: usize) -> (r: &'a Node)
    requires
        depth < path.len(),
        valid(trees(nodes@), path@.skip(depth as int)),
    ensures
        r@ == at_spec(trees(nodes@), path@.skip(depth as int)),
    decreases path.len() - depth,
{
    proof {
        lemma_trees(nodes@);
        assert(path@.skip(depth as int).drop_first() =~= path@.skip(depth + 1));
    }
    let v: i64 = path[depth];
    let n = nodes.len();
    proof {
        assert(path@.skip(depth as int)[0] == v);
        assert(0 <= v < n);
    }
    let i = v as usize;
    proof {
        assert(trees(nodes@)[i as int].children == trees(nodes@[i as int].children@));
    }
    if depth + 1 == path.len() {
        &nodes[i]
    } else {
        at_ref(nodes[i].children.as_slice(), path, depth + 1)
    }
}

/// A copy of the box that a path leads to.
pub fn at(boxes: &[Node], path: &[i64]) -> (r: Node)
    requires
        valid(trees(boxes@), path@),
    ensures
        r@ == at_spec(trees(boxes@), path@),
{
    proof {
        assert(path@.skip(0) =~= path@);
    }
    copy_node(at_ref(boxes, path, 0))
}

/// A change to one box.
pub enum Edit {
    /// Put this box in its place.
    Replace(Node),
    /// Give it this label.
    Relabel(String),
    /// Advance its colour on the palette cycle.
    CycleColour,
    /// Advance its fill on the palette cycle.
    CycleFill,
    /// Flip its corners between square and rounded.
    ToggleRounded,
    /// Give it a new last child that starts as a new box does.
    Grow,
}

/// The box after an edit.
pub open spec fn edit_spec(n: Tree, e: Edit) -> Tree {
    match e {
        Edit::Replace(m) => m@,
        Edit::Relabel(l) => Tree { label: l@, ..n },
        Edit::CycleColour => Tree { colour: next_colour_spec(n.colour as int) as i64, ..n },
        Edit::CycleFill => Tree { fill: next_colour_spec(n.fill as int) as i64, ..n },
        Edit::ToggleRounded => Tree { rounded: !n.rounded, ..n },
        Edit::Grow => Tree { children: n.children.push(padded()), ..n },
    }
}

/// The edit does not push a colour past what an `i64` holds.
pub open spec fn edit_fits(n: Tree, e: Edit) -> bool {
    match e {
        Edit::CycleColour => n.colour <= i64::MAX - 2,
        Edit::CycleFill => n.fill <= i64::MAX - 2,
        _ => true,
    }
}

fn apply_edit(n: &mut Node, e: Edit)
    requires
        edit_fits(old(n)@, e),
    ensures
        final(n)@ == edit_spec(old(n)@, e),
{
    let ghost before = n@;
    match e {
        Edit::Replace(m) => {
            *n = m;
        },
        Edit::Relabel(l) => {
            n.label = l;
            proof {
                assert(n@ =~= edit_spec(before, Edit::Relabel(l)));
            }
        },
        Edit::CycleColour => {
            n.colour = next_colour(n.colour);
            proof {
                assert(n@ =~= edit_spec(before, Edit::CycleColour));
            }
        },
        Edit::CycleFill => {
            n.fill = next_colour(n.fill);
            proof {
                assert(n@ =~= edit_spec(before, Edit::CycleFill));
            }
        },
        Edit::ToggleRounded => {
            n.rounded = !n.rounded;
            proof {
                assert(n@ =~= edit_spec(before, Edit::ToggleRounded));
            }
        },
        Edit::Grow => {
            let p = padded_node();
            proof {
                lemma_trees_push(n.children@, p);
            }
            n.children.push(p);
            proof {
                assert(n@ =~= edit_spec(before, Edit::Grow));
            }
        },
    }
}

/// Edits, in place, the box that the rest of a path leads to.
fn edit_at(nodes: &mut Vec<Node>, path: &[i64], depth: usize, e: Edit)
    requires
        depth < path.len(),
        valid(trees(old(nodes)@), path@.skip(depth as int)),
        edit_fits(at_spec(trees(old(nodes)@), path@.skip(depth as int)), e),
    ensures
        trees(final(nodes)@) == with_node(
            trees(old(nodes)@),
            path@.skip(depth as int),
            edit_spec(at_spec(trees(old(nodes)@), path@.skip(depth as int)), e),
        ),
    decreases path.len() - depth,
{
    proof {
        lemma_trees(nodes@);
        assert(path@.skip(depth as int).drop_first() =~= path@.skip(depth + 1));
    }
    let v: i64 = path[depth];
    let n = nodes.len();
    proof {
        assert(path@.skip(depth as int)[0] == v);
        assert(0 <= v < n);
    }
    let i = v as usize;
    proof {
        assert(trees(nodes@)[i as int].children == trees(nodes@[i as int].children@));
    }
    if depth + 1 == path.len() {
        apply_edit(&mut nodes[i], e);
        proof {
            lemma_trees_update(old(nodes)@, i as int, nodes@[i as int]);
        }
    } else {
        edit_at(&mut nodes[i].children, path, depth + 1, e);
        proof {
            lemma_trees_update(old(nodes)@, i as int, nodes@[i as int]);
            assert(nodes@[i as int]@ =~= Tree {
                children: with_node(
                    trees(old(nodes)@)[i as int].children,
                    path@.skip(depth + 1),
                    edit_spec(at_spec(trees(old(nodes)@), path@.skip(depth as int)), e),
                ),
                ..trees(old(nodes)@)[i as int]
            });
        }
    }
}

/// The boxes with the box that a path leads to changed by an edit; the
/// given boxes stay as they are.
pub fn rewrite(boxes: &[Node], path: &[i64], e: Edit) -> (r: Vec<Node>)
    requires
        valid(trees(boxes@), path@),
        edit_fits(at_spec(trees(boxes@), path@), e),
    ensures
        trees(r@) == with_node(trees(boxes@), path@, edit_spec(at_spec(trees(boxes@), path@), e)),
{
    proof {
        assert(path@.skip(0) =~= path@);
    }
    let mut r = copy_slice(boxes);
    edit_at(&mut r, path, 0, e);
    r
}

/// The first `k` indices of a path.
pub fn prefix(path: &[i64], k: usize) -> (r: Vec<i64>)
    requires
        k <= path.len(),
    ensures
        r@ == path@.take(k as int),
{
    let mut r: Vec<i64> = Vec::new();
    let mut i: usize = 0;
    while i < k
        invariant
            i <= k <= path.len(),
            r@ == path@.take(i as int),
        decreases k - i,
    {
        r.push(path[i]);
        i = i + 1;
        proof {
            assert(r@ =~= path@.take(i as int));
        }
    }
    r
}

/// Where a new box goes, and the path that then selects it: a new last
/// top-level box when the path is empty, else a new last child of the box it
/// leads to.
pub open spec fn grow_spec(boxes: Seq<Tree>, path: Seq<i64>) -> (Seq<Tree>, Seq<i64>) {
    if path.len() == 0 {
        (boxes.push(padded()), seq![boxes.len() as i64])
    } else {
        let n = at_spec(boxes, path);
        (with_node(boxes, path, edit_spec(n, Edit::Grow)), path.push(n.children.len() as i64))
    }
}

/// The list that a new box joins has room for one more index in an `i64`.
pub open spec fn grow_fits(boxes: Seq<Tree>, path: Seq<i64>) -> bool {
    siblings(boxes, path).len() < i64::MAX
}

/// The boxes with a new box added where `path` says, and the path to it; the
/// given boxes stay as they are.
pub fn grow(boxes: &[Node], path: &[i64]) -> (r: (Vec<Node>, Vec<i64>))
    requires
        selection_ok(trees(boxes@), path@),
        grow_fits(trees(boxes@), path@),
    ensures
        trees(r.0@) == grow_spec(trees(boxes@), path@).0,
        r.1@ == grow_spec(trees(boxes@), path@).1,
{
    let mut grown = copy_slice(boxes);
    proof {
        lemma_trees(boxes@);
        lemma_trees(grown@);
    }
    if path.len() == 0 {
        let n = grown.len();
        proof {
            assert(n < i64::MAX);
        }
        let new_index = n as i64;
        let p = padded_node();
        proof {
            lemma_trees_push(grown@, p);
        }
        grown.push(p);
        let mut selected: Vec<i64> = Vec::new();
        selected.push(new_index);
        proof {
            assert(selected@ =~= seq![boxes@.len() as i64]);
        }
        (grown, selected)
    } else {
        proof {
            assert(path@.skip(0) =~= path@);
        }
        let here = at_ref(boxes, path, 0);
        let n = here.children.len();
        proof {
            lemma_trees(here.children@);
            assert(n < i64::MAX);
        }
        let new_index = n as i64;
        edit_at(&mut grown, path, 0, Edit::Grow);
        let mut selected = prefix(path, path.len());
        proof {
            assert(path@.take(path@.len() as int) =~= path@);
        }
        selected.push(new_index);
        (grown, selected)
    }
}

/// Every box of a list with the given colour.
pub open spec fn recolour(sibs: Seq<Tree>, c: i64) -> Seq<Tree> {
    Seq::new(sibs.len(), |i: int| Tree { colour: c, ..sibs[i] })
}

/// The colour a list of boxes takes together: the next colour after the one
/// they share, or the first palette colour when they differ.
pub open spec fn row_colour(sibs: Seq<Tree>) -> i64 {
    if forall|i: int| 0 <= i < sibs.len() ==> #[trigger] sibs[i].colour == sibs[0].colour {
        next_colour_spec(sibs[0].colour as int) as i64
    } else {
        0
    }
}

/// The boxes with every sibling of the box that `path` leads to, itself
/// included, recoloured together.
pub open spec fn colour_row_spec(boxes: Seq<Tree>, path: Seq<i64>) -> Seq<Tree> {
    let parent = path.drop_last();
    let sibs = siblings(boxes, parent);
    with_siblings(boxes, parent, recolour(sibs, row_colour(sibs)))
}

/// A row can be recoloured: the parent is a box or the top level, the row
/// is not empty, and its first colour can advance within an `i64`.
pub open spec fn row_ok(boxes: Seq<Tree>, path: Seq<i64>) -> bool {
    let parent = path.drop_last();
    &&& path.len() >= 1
    &&& selection_ok(boxes, parent)
    &&& siblings(boxes, parent).len() > 0
    &&& siblings(boxes, parent)[0].colour <= i64::MAX - 2
}

fn set_colour(n: &mut Node, c: i64)
    ensures
        final(n)@ == (Tree { colour: c, ..old(n)@ }),
{
    n.colour = c;
    proof {
        assert(n@ =~= Tree { colour: c, ..old(n)@ });
    }
}

fn colour_list(nodes: &mut Vec<Node>)
    requires
        old(nodes).len() > 0,
        old(nodes)@[0].colour <= i64::MAX - 2,
    ensures
        trees(final(nodes)@) == recolour(trees(old(nodes)@), row_colour(trees(old(nodes)@))),
{
    let ghost before = trees(nodes@);
    proof {
        lemma_trees(nodes@);
    }
    let first = nodes[0].colour;
    let mut uniform = true;
    let mut j: usize = 0;
    while j < nodes.len()
        invariant
            j <= nodes.len(),
            first == nodes@[0].colour,
            uniform == (forall|k: int| 0 <= k < j ==> #[trigger] nodes@[k].colour == first),
        decreases nodes.len() - j,
    {
        if nodes[j].colour != first {
            uniform = false;
        }
        j = j + 1;
    }
    proof {
        assert(uniform == (forall|k: int| 0 <= k < before.len() ==> #[trigger] before[k].colour == before[0].colour)) by {
            if !uniform {
                let k = choose|k: int| 0 <= k < nodes@.len() && #[trigger] nodes@[k].colour != first;
                assert(before[k].colour != before[0].colour);
            }
        }
    }
    let c = if uniform {
        next_colour(first)
    } else {
        0
    };
    let ghost start = nodes@;
    let mut j: usize = 0;
    while j < nodes.len()
        invariant
            j <= nodes.len(),
            nodes.len() == start.len(),
            trees(start) == before,
            forall|k: int| 0 <= k < j ==> #[trigger] trees(nodes@)[k] == (Tree { colour: c, ..before[k] }),
            forall|k: int| j <= k < nodes.len() ==> #[trigger] nodes@[k] == start[k],
        decreases nodes.len() - j,
    {
        proof {
            lemma_trees(nodes@);
            lemma_trees(start);
        }
        let ghost prev = nodes@;
        set_colour(&mut nodes[j], c);
        proof {
            lemma_trees_update(prev, j as int, nodes@[j as int]);
            lemma_trees(prev);
        }
        j = j + 1;
    }
    proof {
        lemma_trees(nodes@);
        assert(trees(nodes@) =~= recolour(before, row_colour(before)));
    }
}

fn colour_row_at(nodes: &mut Vec<Node>, parent: &[i64], depth: usize)
    requires
        depth <= parent.len(),
        depth == parent.len() || valid(trees(old(nodes)@), parent@.skip(depth as int)),
        siblings(trees(old(nodes)@), parent@.skip(depth as int)).len() > 0,
        siblings(trees(old(nodes)@), parent@.skip(depth as int))[0].colour <= i64::MAX - 2,
    ensures
        trees(final(nodes)@) == with_siblings(
            trees(old(nodes)@),
            parent@.skip(depth as int),
            recolour(
                siblings(trees(old(nodes)@), parent@.skip(depth as int)),
                row_colour(siblings(trees(old(nodes)@), parent@.skip(depth as int))),
            ),
        ),
    decreases parent.len() - depth,
{
    let ghost rest = parent@.skip(depth as int);
    proof {
        lemma_trees(nodes@);
    }
    if depth == parent.len() {
        proof {
            assert(rest.len() == 0);
            assert(nodes@[0].colour == trees(nodes@)[0].colour);
        }
        colour_list(nodes);
    } else {
        let v: i64 = parent[depth];
        let n = nodes.len();
        proof {
            assert(rest[0] == v);
            assert(0 <= v < n);
            assert(rest.drop_first() =~= parent@.skip(depth + 1));
        }
        let i = v as usize;
        proof {
            assert(trees(nodes@)[i as int] == nodes@[i as int]@);
            assert(trees(nodes@)[i as int].children == trees(nodes@[i as int].children@));
            let kids = trees(nodes@[i as int].children@);
            let deeper = parent@.skip(depth + 1);
            if deeper.len() > 0 {
                assert(at_spec(trees(nodes@), rest) == at_spec(kids, deeper));
                assert(siblings(kids, deeper) == siblings(trees(nodes@), rest));
            } else {
                assert(at_spec(trees(nodes@), rest) == trees(nodes@)[i as int]);
                assert(siblings(kids, deeper) == siblings(trees(nodes@), rest));
            }
        }
        colour_row_at(&mut nodes[i].children, parent, depth + 1);
        proof {
            lemma_trees_update(old(nodes)@, i as int, nodes@[i as int]);
            let kids = trees(old(nodes)@[i as int].children@);
            let deeper = parent@.skip(depth + 1);
            let sibs = siblings(trees(old(nodes)@), rest);
            let row = recolour(sibs, row_colour(sibs));
            assert(nodes@[i as int]@ =~= Tree { children: with_siblings(kids, deeper, row), ..trees(old(nodes)@)[i as int] });
            if deeper.len() > 0 {
                assert(with_siblings(trees(old(nodes)@), rest, row) == trees(old(nodes)@).update(
                    i as int,
                    Tree { children: with_siblings(kids, deeper, row), ..trees(old(nodes)@)[i as int] },
                ));
            } else {
                assert(with_siblings(trees(old(nodes)@), rest, row) == trees(old(nodes)@).update(
                    i as int,
                    Tree { children: row, ..trees(old(nodes)@)[i as int] },
                ));
            }
        }
    }
}

/// The boxes with the row of siblings that `path` ends in recoloured
/// together; the given boxes stay as they are.
pub fn colour_row(boxes: &[Node], path: &[i64]) -> (r: Vec<Node>)
    requires
        row_ok(trees(boxes@), path@),
    ensures
        trees(r@) == colour_row_spec(trees(boxes@), path@),
{
    let parent = prefix(path, path.len() - 1);
    proof {
        assert(parent@ =~= path@.drop_last());
        assert(parent@.skip(0) =~= parent@);
    }
    let mut r = copy_slice(boxes);
    colour_row_at(&mut r, parent.as_slice(), 0);
    r
}

/// The editor: the boxes, whether it still runs, the mode by name, the
/// selected box as a path (empty for none), and the state that undo restores.
pub struct State {
    pub boxes: Vec<Node>,
    pub running: bool,
    pub mode: String,
    pub selected: Vec<i64>,
    pub before: Option<Box<State>>,
}

/// The editor as a mathematical value.
#[verifier::ext_equal]
pub struct StateModel {
    pub boxes: Seq<Tree>,
    pub running: bool,
    pub mode: Seq<char>,
    pub selected: Seq<i64>,
    pub before: Option<Box<StateModel>>,
}

pub open spec fn state_model(s: State) -> StateModel
    decreases s,
{
    StateModel {
        boxes: trees(s.boxes@),
        running: s.running,
        mode: s.mode@,
        selected: s.selected@,
        before: match s.before {
            Some(b) => Some(Box::new(state_model(*b))),
            None => None,
        },
    }
}

impl View for State {
    type V = StateModel;

    open spec fn view(&self) -> StateModel {
        state_model(*self)
    }
}

impl State {
    /// A state with the given parts.
    pub fn new(boxes: Vec<Node>, running: bool, mode: String, selected: Vec<i64>, before: Option<State>) -> (r: Self)
        ensures
            r@ == (StateModel {
                boxes: trees(boxes@),
                running,
                mode: mode@,
                selected: selected@,
                before: match before {
                    Some(b) => Some(Box::new(b@)),
                    None => None,
                },
            }),
    {
        let before = match before {
            Some(b) => Some(Box::new(b)),
            None => None,
        };
        State { boxes, running, mode, selected, before }
    }
}

/// A copy of a state, with the states that undo goes back to.
pub fn copy_state(s: &State) -> (r: State)
    ensures
        r@ == s@,
    decreases s,
{
    let before = match &s.before {
        Some(b) => Some(Box::new(copy_state(b))),
        None => None,
    };
    let r = State {
        boxes: copy_nodes(&s.boxes),
        running: s.running,
        mode: s.mode.clone(),
        selected: prefix(s.selected.as_slice(), s.selected.len()),
        before,
    };
    proof {
        assert(s.selected@.take(s.selected@.len() as int) =~= s.selected@);
    }
    r
}

/// What a key asks for in command mode.
#[derive(Clone, Copy, Debug, PartialEq, Eq)]
pub enum Command {
    Undo,
    NewBox,
    NewSibling,
    SelectParent,
    SelectChild,
    SelectNext,
    SelectPrevious,
    EditLabel,
    RenameLabel,
    CycleColour,
    CycleSiblingsColour,
    CycleFill,
    ToggleRounded,
    Quit,
}

/// The command a key runs: each is one letter.
pub open spec fn parse_spec(k: Seq<char>) -> Option<Command> {
    if k.len() != 1 {
        None
    } else {
        match k[0] {
            'u' => Some(Command::Undo),
            'b' => Some(Command::NewBox),
            's' => Some(Command::NewSibling),
            'h' => Some(Command::SelectParent),
            'l' => Some(Command::SelectChild),
            'j' => Some(Command::SelectNext),
            'k' => Some(Command::SelectPrevious),
            'i' => Some(Command::EditLabel),
            'I' => Some(Command::RenameLabel),
            'c' => Some(Command::CycleColour),
            'C' => Some(Command::CycleSiblingsColour),
            'f' => Some(Command::CycleFill),
            'r' => Some(Command::ToggleRounded),
            'q' => Some(Command::Quit),
            _ => None,
        }
    }
}

/// The command that a key runs, if any.
pub fn parse(key: &str) -> (r: Option<Command>)
    ensures
        r == parse_spec(key@),
{
    let v = chars_of(key);
    if v.len() != 1 {
        return None;
    }
    match v[0] {
        'u' => Some(Command::Undo),
        'b' => Some(Command::NewBox),
        's' => Some(Command::NewSibling),
        'h' => Some(Command::SelectParent),
        'l' => Some(Command::SelectChild),
        'j' => Some(Command::SelectNext),
        'k' => Some(Command::SelectPrevious),
        'i' => Some(Command::EditLabel),
        'I' => Some(Command::RenameLabel),
        'c' => Some(Command::CycleColour),
        'C' => Some(Command::CycleSiblingsColour),
        'f' => Some(Command::CycleFill),
        'r' => Some(Command::ToggleRounded),
        'q' => Some(Command::Quit),
        _ => None,
    }
}

pub open spec fn is_undoable_spec(c: Command) -> bool {
    match c {
        Command::NewBox | Command::NewSibling | Command::CycleColour | Command::CycleFill
        | Command::ToggleRounded | Command::CycleSiblingsColour | Command::RenameLabel => true,
        _ => false,
    }
}

/// Whether undo can take a command back.
pub fn is_undoable(c: Command) -> (r: bool)
    ensures
        r == is_undoable_spec(c),
{
    match c {
        Command::NewBox | Command::NewSibling | Command::CycleColour | Command::CycleFill
        | Command::ToggleRounded | Command::CycleSiblingsColour | Command::RenameLabel => true,
        _ => false,
    }
}

/// The state holding a copy of itself, without its own undo state, for undo.
pub open spec fn with_snapshot(s: StateModel) -> StateModel {
    StateModel { before: Some(Box::new(StateModel { before: None, ..s })), ..s }
}

/// The state in insert mode, with the selected box's label set to `base`
/// and a pad.
pub open spec fn enter_insert_spec(s: StateModel, base: Seq<char>) -> StateModel {
    let n = at_spec(s.boxes, s.selected);
    StateModel {
        boxes: with_node(s.boxes, s.selected, Tree { label: base.push(' '), ..n }),
        mode: INSERT_MODE@,
        ..s
    }
}

/// The state with the selected box changed by an edit.
pub open spec fn edit_selected(s: StateModel, e: Edit) -> StateModel {
    StateModel { boxes: with_node(s.boxes, s.selected, edit_spec(at_spec(s.boxes, s.selected), e)), ..s }
}

/// What a command does.
pub open spec fn command_spec(s: StateModel, c: Command) -> StateModel {
    let sel = s.selected;
    let parent = sel.drop_last();
    match c {
        Command::Undo => match s.before {
            Some(b) => *b,
            None => s,
        },
        Command::NewBox => {
            let g = grow_spec(s.boxes, sel);
            StateModel { boxes: g.0, mode: INSERT_MODE@, selected: g.1, ..s }
        },
        Command::NewSibling => if sel.len() == 0 {
            s
        } else {
            let g = grow_spec(s.boxes, parent);
            StateModel { boxes: g.0, mode: INSERT_MODE@, selected: g.1, ..s }
        },
        Command::SelectParent => if sel.len() <= 1 {
            s
        } else {
            StateModel { selected: parent, ..s }
        },
        Command::SelectChild => if sel.len() == 0 || at_spec(s.boxes, sel).children.len() == 0 {
            s
        } else {
            StateModel { selected: sel.push(0), ..s }
        },
        Command::SelectNext => if sel.len() == 0 || sel.last() + 1 >= siblings(s.boxes, parent).len() {
            s
        } else {
            StateModel { selected: parent.push((sel.last() + 1) as i64), ..s }
        },
        Command::SelectPrevious => if sel.len() == 0 || sel.last() == 0 {
            s
        } else {
            StateModel { selected: parent.push((sel.last() - 1) as i64), ..s }
        },
        Command::EditLabel => if sel.len() == 0 {
            s
        } else {
            enter_insert_spec(s, at_spec(s.boxes, sel).label)
        },
        Command::RenameLabel => if sel.len() == 0 {
            s
        } else {
            enter_insert_spec(s, Seq::empty())
        },
        Command::CycleColour => if sel.len() == 0 {
            s
        } else {
            edit_selected(s, Edit::CycleColour)
        },
        Command::CycleSiblingsColour => if sel.len() <= 1 {
            s
        } else {
            StateModel { boxes: colour_row_spec(s.boxes, sel), ..s }
        },
        Command::CycleFill => if sel.len() == 0 {
            s
        } else {
            edit_selected(s, Edit::CycleFill)
        },
        Command::ToggleRounded => if sel.len() == 0 {
            s
        } else {
            edit_selected(s, Edit::ToggleRounded)
        },
        Command::Quit => StateModel { running: false, ..s },
    }
}

/// A key in command mode: an unknown key changes nothing; an undoable
/// command first keeps the state for undo.
pub open spec fn handle_command_spec(s: StateModel, k: Seq<char>) -> StateModel {
    match parse_spec(k) {
        None => s,
        Some(c) => command_spec(if is_undoable_spec(c) { with_snapshot(s) } else { s }, c),
    }
}

/// What a command reads of the boxes finds a box or a list there. Undo,
/// quitting, and the moves to the parent and to the previous sibling work on
/// the selected path alone. The move to the next sibling and a new sibling
/// read only the list that holds the selection, found through its parent. A
/// row recolours the list at the parent of a selection at least two deep,
/// starting from its first box. The others read the selected box itself.
pub open spec fn selection_ready(boxes: Seq<Tree>, sel: Seq<i64>, c: Command) -> bool {
    match c {
        Command::Undo | Command::Quit | Command::SelectParent | Command::SelectPrevious => true,
        Command::SelectNext | Command::NewSibling => sel.len() == 0 || selection_ok(boxes, sel.drop_last()),
        Command::CycleSiblingsColour => sel.len() <= 1 || (selection_ok(boxes, sel.drop_last())
            && siblings(boxes, sel.drop_last()).len() > 0),
        _ => selection_ok(boxes, sel),
    }
}

/// An empty selection or one that leads to a box is ready for every command.
pub proof fn lemma_selection_ready(boxes: Seq<Tree>, sel: Seq<i64>, c: Command)
    requires
        selection_ok(boxes, sel),
    ensures
        selection_ready(boxes, sel, c),
{
    if sel.len() > 0 {
        lemma_parent(boxes, sel);
    }
}

/// The command's arithmetic stays within an `i64`: a new box's index, and a
/// colour or fill that advances.
pub open spec fn command_fits(s: StateModel, c: Command) -> bool {
    let sel = s.selected;
    match c {
        Command::NewBox => grow_fits(s.boxes, sel),
        Command::NewSibling => sel.len() == 0 || grow_fits(s.boxes, sel.drop_last()),
        Command::CycleColour => sel.len() == 0 || at_spec(s.boxes, sel).colour <= i64::MAX - 2,
        Command::CycleFill => sel.len() == 0 || at_spec(s.boxes, sel).fill <= i64::MAX - 2,
        Command::CycleSiblingsColour => sel.len() <= 1 || siblings(s.boxes, sel.drop_last())[0].colour
            <= i64::MAX - 2,
        Command::SelectNext => sel.len() == 0 || sel.last() < i64::MAX,
        Command::SelectPrevious => sel.len() == 0 || sel.last() > i64::MIN,
        _ => true,
    }
}

/// A valid path's parent is a valid path or empty, and the path's last
/// index picks the box out of the parent's list.
pub proof fn lemma_parent(boxes: Seq<Tree>, path: Seq<i64>)
    requires
        valid(boxes, path),
    ensures
        selection_ok(boxes, path.drop_last()),
        0 <= path.last() < siblings(boxes, path.drop_last()).len(),
        at_spec(boxes, path) == siblings(boxes, path.drop_last())[path.last() as int],
    decreases path.len(),
{
    if path.len() > 1 {
        let i = path[0] as int;
        let rest = path.drop_first();
        lemma_parent(boxes[i].children, rest);
        let up = path.drop_last();
        assert(up.drop_first() =~= rest.drop_last());
        assert(up[0] == path[0]);
        assert(rest.last() == path.last());
        if rest.len() > 1 {
            assert(valid(boxes, up));
            assert(at_spec(boxes, up) == at_spec(boxes[i].children, rest.drop_last()));
        } else {
            assert(up.len() == 1);
            assert(valid(boxes, up));
            assert(at_spec(boxes, up) == boxes[i]);
        }
    }
}

/// Taking the undo state, or the state itself when there is none.
fn undo(state: State) -> (r: State)
    ensures
        r@ == command_spec(state@, Command::Undo),
{
    let State { boxes, running, mode, selected, before } = state;
    match before {
        Some(b) => *b,
        None => State { boxes, running, mode, selected, before: None },
    }
}

/// The state holding a copy of itself for undo.
fn snapshot(state: State) -> (r: State)
    ensures
        r@ == with_snapshot(state@),
{
    let ghost s0 = state@;
    let copy = State {
        boxes: copy_nodes(&state.boxes),
        running: state.running,
        mode: state.mode.clone(),
        selected: prefix(state.selected.as_slice(), state.selected.len()),
        before: None,
    };
    proof {
        assert(state.selected@.take(state.selected@.len() as int) =~= state.selected@);
    }
    let mut state = state;
    state.before = Some(Box::new(copy));
    proof {
        assert(state@ =~= with_snapshot(s0)) by {
            assert(copy@ =~= StateModel { before: None, ..s0 });
        }
    }
    state
}

/// The state with a new box where `at` says, selected and being named.
fn add_box(state: State, at_path: Vec<i64>) -> (r: State)
    requires
        selection_ok(state@.boxes, at_path@),
        grow_fits(state@.boxes, at_path@),
    ensures
        r@ == ({
            let g = grow_spec(state@.boxes, at_path@);
            StateModel { boxes: g.0, mode: INSERT_MODE@, selected: g.1, ..state@ }
        }),
{
    let ghost s0 = state@;
    let mut state = state;
    let (boxes, selected) = grow(state.boxes.as_slice(), at_path.as_slice());
    state.boxes = boxes;
    state.mode = owned(INSERT_MODE);
    state.selected = selected;
    proof {
        let g = grow_spec(s0.boxes, at_path@);
        assert(state@ =~= StateModel { boxes: g.0, mode: INSERT_MODE@, selected: g.1, ..s0 });
    }
    state
}

/// The state with the selected box changed by an edit.
fn edit_selection(state: State, e: Edit) -> (r: State)
    requires
        valid(state@.boxes, state@.selected),
        edit_fits(at_spec(state@.boxes, state@.selected), e),
    ensures
        r@ == edit_selected(state@, e),
{
    let ghost s0 = state@;
    let mut state = state;
    proof {
        assert(state.selected@.skip(0) =~= state.selected@);
    }
    edit_at(&mut state.boxes, state.selected.as_slice(), 0, e);
    proof {
        assert(state@ =~= edit_selected(s0, e));
    }
    state
}

/// The state in insert mode, the selected box's label set to `base` and a pad.
fn enter_insert(state: State, base: String) -> (r: State)
    requires
        valid(state@.boxes, state@.selected),
    ensures
        r@ == enter_insert_spec(state@, base@),
{
    let ghost s0 = state@;
    let mut label = base;
    push_char(&mut label, ' ');
    let mut state = edit_selection(state, Edit::Relabel(label));
    state.mode = owned(INSERT_MODE);
    proof {
        assert(state@ =~= enter_insert_spec(s0, base@));
    }
    state
}

/// The number of boxes in the list at `parent`.
fn siblings_len(boxes: &Vec<Node>, parent: &[i64]) -> (r: usize)
    requires
        selection_ok(trees(boxes@), parent@),
    ensures
        r == siblings(trees(boxes@), parent@).len(),
{
    proof {
        lemma_trees(boxes@);
        assert(parent@.skip(0) =~= parent@);
    }
    if parent.len() == 0 {
        boxes.len()
    } else {
        let n = at_ref(boxes.as_slice(), parent, 0);
        proof {
            lemma_trees(n.children@);
        }
        n.children.len()
    }
}

/// The state with `path` selected.
fn reselect(state: State, path: Vec<i64>) -> (r: State)
    ensures
        r@ == (StateModel { selected: path@, ..state@ }),
{
    let ghost s0 = state@;
    let mut state = state;
    state.selected = path;
    proof {
        assert(state@ =~= StateModel { selected: path@, ..s0 });
    }
    state
}

/// Runs a command that moves the selection.
fn select(state: State, c: Command) -> (r: State)
    requires
        selection_ready(state@.boxes, state@.selected, c),
        c == Command::SelectParent || c == Command::SelectChild || c == Command::SelectNext
            || c == Command::SelectPrevious,
        command_fits(state@, c),
    ensures
        r@ == command_spec(state@, c),
{
    let len = state.selected.len();
    if len == 0 {
        return state;
    }
    proof {
        assert(state.selected@.skip(0) =~= state.selected@);
    }
    let last = state.selected[len - 1];
    match c {
        Command::SelectParent => {
            if len <= 1 {
                return state;
            }
            let parent = prefix(state.selected.as_slice(), len - 1);
            proof {
                assert(parent@ =~= state.selected@.drop_last());
            }
            reselect(state, parent)
        },
        Command::SelectChild => {
            let n = at_ref(state.boxes.as_slice(), state.selected.as_slice(), 0);
            proof {
                lemma_trees(n.children@);
            }
            if n.children.len() == 0 {
                return state;
            }
            let mut child = prefix(state.selected.as_slice(), len);
            child.push(0);
            proof {
                assert(child@ =~= state.selected@.push(0));
            }
            reselect(state, child)
        },
        Command::SelectNext => {
            let mut next = prefix(state.selected.as_slice(), len - 1);
            proof {
                assert(next@ =~= state.selected@.drop_last());
            }
            let count = siblings_len(&state.boxes, next.as_slice());
            if last as i128 + 1 >= count as i128 {
                return state;
            }
            next.push(last + 1);
            reselect(state, next)
        },
        _ => {
            if last == 0 {
                return state;
            }
            let mut previous = prefix(state.selected.as_slice(), len - 1);
            previous.push(last - 1);
            proof {
                assert(previous@ =~= state.selected@.drop_last().push((last - 1) as i64));
            }
            reselect(state, previous)
        },
    }
}

/// Runs a command.
fn run(state: State, c: Command) -> (r: State)
    requires
        selection_ready(state@.boxes, state@.selected, c),
        command_fits(state@, c),
    ensures
        r@ == command_spec(state@, c),
{
    let ghost s0 = state@;
    let len = state.selected.len();
    match c {
        Command::Undo => undo(state),
        Command::NewBox => {
            let at_path = prefix(state.selected.as_slice(), len);
            proof {
                assert(at_path@ =~= s0.selected);
            }
            add_box(state, at_path)
        },
        Command::NewSibling => {
            if len == 0 {
                return state;
            }
            let parent = prefix(state.selected.as_slice(), len - 1);
            proof {
                assert(parent@ =~= s0.selected.drop_last());
            }
            add_box(state, parent)
        },
        Command::SelectParent | Command::SelectChild | Command::SelectNext | Command::SelectPrevious => {
            select(state, c)
        },
        Command::EditLabel => {
            if len == 0 {
                return state;
            }
            proof {
                assert(state.selected@.skip(0) =~= state.selected@);
            }
            let label = at_ref(state.boxes.as_slice(), state.selected.as_slice(), 0).label.clone();
            enter_insert(state, label)
        },
        Command::RenameLabel => {
            if len == 0 {
                return state;
            }
            let empty = String::new();
            proof {
                assert(empty@ =~= Seq::<char>::empty());
            }
            enter_insert(state, empty)
        },
        Command::CycleColour => {
            if len == 0 {
                return state;
            }
            edit_selection(state, Edit::CycleColour)
        },
        Command::CycleSiblingsColour => {
            if len <= 1 {
                return state;
            }
            let mut state = state;
            state.boxes = colour_row(state.boxes.as_slice(), state.selected.as_slice());
            proof {
                assert(state@ =~= StateModel { boxes: colour_row_spec(s0.boxes, s0.selected), ..s0 });
            }
            state
        },
        Command::CycleFill => {
            if len == 0 {
                return state;
            }
            edit_selection(state, Edit::CycleFill)
        },
        Command::ToggleRounded => {
            if len == 0 {
                return state;
            }
            edit_selection(state, Edit::ToggleRounded)
        },
        Command::Quit => {
            let mut state = state;
            state.running = false;
            proof {
                assert(state@ =~= StateModel { running: false, ..s0 });
            }
            state
        },
    }
}

/// The keys of command mode: the command's arithmetic stays within an `i64`.
pub open spec fn command_key_fits(s: StateModel, k: Seq<char>) -> bool {
    match parse_spec(k) {
        Some(c) => command_fits(s, c),
        None => true,
    }
}

/// A key's command finds at the selection what it reads of the boxes.
pub open spec fn command_key_ready(s: StateModel, k: Seq<char>) -> bool {
    match parse_spec(k) {
        Some(c) => selection_ready(s.boxes, s.selected, c),
        None => true,
    }
}

/// Handles a key in command mode; the given state stays as it is.
pub fn handle_command(state: &State, key: &str) -> (r: State)
    requires
        command_key_ready(state@, key@),
        command_key_fits(state@, key@),
    ensures
        r@ == handle_command_spec(state@, key@),
{
    let command = match parse(key) {
        Some(c) => c,
        None => return copy_state(state),
    };
    let state = copy_state(state);
    let state = if is_undoable(command) {
        snapshot(state)
    } else {
        state
    };
    run(state, command)
}

/// The text without its last `n` characters; empty when it has no more.
pub open spec fn drop_last_chars_spec(s: Seq<char>, n: nat) -> Seq<char> {
    if s.len() >= n {
        s.take(s.len() - n)
    } else {
        Seq::empty()
    }
}

/// The text without its last `n` characters; empty when it has no more.
pub fn drop_last_chars(s: &str, n: usize) -> (r: String)
    ensures
        r@ == drop_last_chars_spec(s@, n as nat),
{
    let v = chars_of(s);
    let keep = if v.len() >= n {
        v.len() - n
    } else {
        0
    };
    let mut kept: Vec<char> = Vec::new();
    let mut i: usize = 0;
    while i < keep
        invariant
            keep <= v.len(),
            i <= keep,
            kept@ == v@.take(i as int),
        decreases keep - i,
    {
        kept.push(v[i]);
        i = i + 1;
        proof {
            assert(kept@ =~= v@.take(i as int));
        }
    }
    proof {
        assert(kept@ =~= drop_last_chars_spec(s@, n as nat));
    }
    string_of(&kept)
}

/// A key types itself when it sorts, as text, from a space up to a tilde:
/// it starts with a printable ASCII character, and a key that starts with a
/// tilde is the tilde alone.
pub open spec fn printable(k: Seq<char>) -> bool {
    &&& k.len() > 0
    &&& ' ' <= k[0]
    &&& (k[0] < '~' || (k[0] == '~' && k.len() == 1))
}

/// The state with the selected box's label set to `label`.
pub open spec fn relabel(s: StateModel, label: Seq<char>) -> StateModel {
    StateModel {
        boxes: with_node(s.boxes, s.selected, Tree { label, ..at_spec(s.boxes, s.selected) }),
        ..s
    }
}

/// A key in insert mode: Escape drops the pad and goes back to command
/// mode, Delete removes the last character typed, and a printable key is
/// typed before the pad; any other key changes nothing.
pub open spec fn handle_insert_spec(s: StateModel, k: Seq<char>) -> StateModel {
    let label = at_spec(s.boxes, s.selected).label;
    if k == seq!['\x1b'] {
        StateModel { mode: COMMAND_MODE@, ..relabel(s, drop_last_chars_spec(label, 1)) }
    } else if k == seq!['\x7f'] {
        relabel(s, drop_last_chars_spec(label, 2).push(' '))
    } else if printable(k) {
        relabel(s, (drop_last_chars_spec(label, 1) + k).push(' '))
    } else {
        s
    }
}

/// Handles a key in insert mode; the given state stays as it is.
pub fn handle_insert(state: &State, key: &str) -> (r: State)
    requires
        valid(state@.boxes, state@.selected),
    ensures
        r@ == handle_insert_spec(state@, key@),
{
    let ghost s0 = state@;
    proof {
        assert(state.selected@.skip(0) =~= state.selected@);
    }
    let label = at_ref(state.boxes.as_slice(), state.selected.as_slice(), 0).label.as_str();
    let k = chars_of(key);
    proof {
        assert(k@.len() == 1 ==> k@ =~= seq![k@[0]]);
    }
    if k.len() == 1 && k[0] == '\x1b' {
        let trimmed = drop_last_chars(label, 1);
        let mut state = edit_selection(copy_state(state), Edit::Relabel(trimmed));
        state.mode = owned(COMMAND_MODE);
        proof {
            assert(state@ =~= handle_insert_spec(s0, key@));
        }
        return state;
    }
    if k.len() == 1 && k[0] == '\x7f' {
        let mut shorter = drop_last_chars(label, 2);
        push_char(&mut shorter, ' ');
        let r = edit_selection(copy_state(state), Edit::Relabel(shorter));
        proof {
            assert(r@ =~= handle_insert_spec(s0, key@));
        }
        return r;
    }
    if k.len() > 0 && ' ' <= k[0] && (k[0] < '~' || (k[0] == '~' && k.len() == 1)) {
        let mut typed = drop_last_chars(label, 1);
        crate::text::push_str(&mut typed, key);
        push_char(&mut typed, ' ');
        let r = edit_selection(copy_state(state), Edit::Relabel(typed));
        proof {
            assert(r@ =~= handle_insert_spec(s0, key@));
        }
        return r;
    }
    copy_state(state)
}

/// Whether a mode is insert mode.
pub fn is_insert(mode: &str) -> (r: bool)
    ensures
        r == (mode@ == INSERT_MODE@),
{
    proof {
        reveal_strlit("insert");
    }
    let v = chars_of(mode);
    let r = v.len() == 6 && v[0] == 'i' && v[1] == 'n' && v[2] == 's' && v[3] == 'e' && v[4] == 'r' && v[5] == 't';
    proof {
        if r {
            assert(mode@ =~= INSERT_MODE@);
        } else if mode@ == INSERT_MODE@ {
            assert(v@ == mode@);
        }
    }
    r
}

/// The editor is ready for a key: the selection is empty or leads to a box,
/// and in insert mode something is selected.
pub open spec fn ready(s: StateModel) -> bool {
    &&& selection_ok(s.boxes, s.selected)
    &&& (s.mode == INSERT_MODE@ ==> s.selected.len() > 0)
}

/// The editor is ready for this key: in insert mode a box is selected, and
/// in any other mode a key that reads the selection finds it empty or
/// leading to a box.
pub open spec fn ready_for(s: StateModel, k: Seq<char>) -> bool {
    if s.mode == INSERT_MODE@ {
        valid(s.boxes, s.selected)
    } else {
        command_key_ready(s, k)
    }
}

/// A key: typed into the selected box's label in insert mode, a command in
/// any other mode.
pub open spec fn handle_key_spec(s: StateModel, k: Seq<char>) -> StateModel {
    if s.mode == INSERT_MODE@ {
        handle_insert_spec(s, k)
    } else {
        handle_command_spec(s, k)
    }
}

/// The key's arithmetic stays within an `i64` (only commands do any).
pub open spec fn key_fits(s: StateModel, k: Seq<char>) -> bool {
    s.mode == INSERT_MODE@ || command_key_fits(s, k)
}

/// Handles a key; the given state stays as it is.
pub fn handle_key(state: &State, key: &str) -> (r: State)
    requires
        ready_for(state@, key@),
        key_fits(state@, key@),
    ensures
        r@ == handle_key_spec(state@, key@),
{
    if is_insert(state.mode.as_str()) {
        handle_insert(state, key)
    } else {
        handle_command(state, key)
    }
}

/// Replacing the box on a valid path keeps the path valid and leads it to
/// the new box.
pub proof fn lemma_with_node(boxes: Seq<Tree>, path: Seq<i64>, n: Tree)
    requires
        valid(boxes, path),
    ensures
        with_node(boxes, path, n).len() == boxes.len(),
        valid(with_node(boxes, path, n), path),
        at_spec(with_node(boxes, path, n), path) == n,
    decreases path.len(),
{
    if path.len() > 1 {
        let i = path[0] as int;
        lemma_with_node(boxes[i].children, path.drop_first(), n);
    }
}

/// A valid path extended by an index is valid exactly when the index picks
/// one of the children of the box it leads to, and then leads to that child.
pub proof fn lemma_child(boxes: Seq<Tree>, path: Seq<i64>, i: i64)
    requires
        valid(boxes, path),
    ensures
        valid(boxes, path.push(i)) == (0 <= i < at_spec(boxes, path).children.len()),
        valid(boxes, path.push(i)) ==> at_spec(boxes, path.push(i)) == at_spec(boxes, path).children[i as int],
    decreases path.len(),
{
    let j = path[0] as int;
    let longer = path.push(i);
    assert(longer[0] == path[0]);
    if path.len() == 1 {
        assert(longer.drop_first() =~= seq![i]);
        assert(seq![i][0] == i);
        assert(valid(boxes[j].children, seq![i]) == (0 <= i < boxes[j].children.len()));
        assert(at_spec(boxes, path) == boxes[j]);
        assert(valid(boxes, longer) == valid(boxes[j].children, seq![i]));
        assert(valid(boxes, longer) ==> at_spec(boxes, longer) == at_spec(boxes[j].children, seq![i]));
    } else {
        assert(longer.drop_first() =~= path.drop_first().push(i));
        lemma_child(boxes[j].children, path.drop_first(), i);
    }
}

/// An index into the list at a parent extends it to a valid path.
pub proof fn lemma_sibling(boxes: Seq<Tree>, parent: Seq<i64>, i: i64)
    requires
        selection_ok(boxes, parent),
        0 <= i < siblings(boxes, parent).len(),
    ensures
        valid(boxes, parent.push(i)),
        at_spec(boxes, parent.push(i)) == siblings(boxes, parent)[i as int],
{
    if parent.len() == 0 {
        assert(parent.push(i) =~= seq![i]);
    } else {
        lemma_child(boxes, parent, i);
    }
}

/// Replacing the list at a parent by one as long keeps every path into it
/// valid.
pub proof fn lemma_with_siblings(boxes: Seq<Tree>, parent: Seq<i64>, row: Seq<Tree>, i: i64)
    requires
        selection_ok(boxes, parent),
        row.len() == siblings(boxes, parent).len(),
        0 <= i < row.len(),
    ensures
        valid(with_siblings(boxes, parent, row), parent.push(i)),
        at_spec(with_siblings(boxes, parent, row), parent.push(i)) == row[i as int],
{
    let new = with_siblings(boxes, parent, row);
    if parent.len() == 0 {
        assert(parent.push(i) =~= seq![i]);
    } else {
        let n = Tree { children: row, ..at_spec(boxes, parent) };
        lemma_with_node(boxes, parent, n);
        lemma_child(new, parent, i);
    }
    lemma_sibling(new, parent, i);
}

/// Putting back the box a valid path leads to changes nothing, and of two
/// replacements along one path only the last counts.
pub proof fn law_rewrite_in_place(boxes: Seq<Tree>, path: Seq<i64>, n: Tree, m: Tree)
    requires
        valid(boxes, path),
    ensures
        with_node(boxes, path, at_spec(boxes, path)) == boxes,
        with_node(with_node(boxes, path, n), path, m) == with_node(boxes, path, m),
    decreases path.len(),
{
    let i = path[0] as int;
    if path.len() <= 1 {
        assert(boxes.update(i, boxes[i]) =~= boxes);
        assert(boxes.update(i, n).update(i, m) =~= boxes.update(i, m));
    } else {
        let rest = path.drop_first();
        law_rewrite_in_place(boxes[i].children, rest, n, m);
        lemma_with_node(boxes[i].children, rest, n);
        assert(Tree { children: boxes[i].children, ..boxes[i] } == boxes[i]);
        assert(boxes.update(i, boxes[i]) =~= boxes);
        let inner = with_node(boxes, path, n);
        assert(inner[i].children == with_node(boxes[i].children, rest, n));
        assert(with_node(inner, path, m) =~= with_node(boxes, path, m));
    }
}

/// Replacing the box on a valid path leaves every box on a path that leaves
/// it before its end as it was: the spine to the box is rebuilt, nothing
/// beside it is touched.
pub proof fn law_rewrite_spine(boxes: Seq<Tree>, path: Seq<i64>, n: Tree, other: Seq<i64>, k: int)
    requires
        valid(boxes, path),
        valid(boxes, other),
        0 <= k < path.len(),
        k < other.len(),
        other.take(k) == path.take(k),
        other[k] != path[k],
    ensures
        valid(with_node(boxes, path, n), other),
        at_spec(with_node(boxes, path, n), other) == at_spec(boxes, other),
    decreases path.len(),
{
    let i = path[0] as int;
    let new = with_node(boxes, path, n);
    if k == 0 {
        let j = other[0] as int;
        assert(new[j] == boxes[j]);
        lemma_same_subtree(boxes, new, other);
    } else {
        assert(other[0] == path[0]) by {
            assert(other.take(k)[0] == other[0]);
            assert(path.take(k)[0] == path[0]);
        }
        let rest = path.drop_first();
        let orest = other.drop_first();
        assert(orest.take(k - 1) =~= other.take(k).drop_first());
        assert(rest.take(k - 1) =~= path.take(k).drop_first());
        law_rewrite_spine(boxes[i].children, rest, n, orest, k - 1);
    }
}

proof fn lemma_same_subtree(a: Seq<Tree>, b: Seq<Tree>, p: Seq<i64>)
    requires
        valid(a, p),
        p[0] < b.len(),
        b[p[0] as int] == a[p[0] as int],
    ensures
        valid(b, p),
        at_spec(b, p) == at_spec(a, p),
{
}

/// A new box is a blank one with a space for its label, on the path that
/// comes back, at the end of the list it joins; taking that last box off the
/// list again gives back the boxes from before.
pub proof fn law_grow_undone_by_removing_the_new_box(boxes: Seq<Tree>, path: Seq<i64>)
    requires
        selection_ok(boxes, path),
        grow_fits(boxes, path),
    ensures
        ({
            let g = grow_spec(boxes, path);
            &&& valid(g.0, g.1)
            &&& at_spec(g.0, g.1) == padded()
            &&& g.1 == path.push(siblings(boxes, path).len() as i64)
            &&& siblings(g.0, path) == siblings(boxes, path).push(padded())
            &&& with_siblings(g.0, path, siblings(g.0, path).drop_last()) == boxes
        }),
{
    let g = grow_spec(boxes, path);
    if path.len() == 0 {
        assert(g.1 =~= seq![boxes.len() as i64]);
        assert(g.1 =~= path.push(boxes.len() as i64));
        lemma_sibling(g.0, path, boxes.len() as i64);
        assert(g.0.drop_last() =~= boxes);
    } else {
        let n = at_spec(boxes, path);
        let grown = edit_spec(n, Edit::Grow);
        lemma_with_node(boxes, path, grown);
        lemma_child(g.0, path, n.children.len() as i64);
        assert(grown.children.drop_last() =~= n.children);
        assert(Tree { children: grown.children.drop_last(), ..grown } == n);
        law_rewrite_in_place(boxes, path, grown, n);
        law_rewrite_in_place(boxes, path, n, n);
    }
}

/// The box at index `i` of the row that holds `path`'s box, after the row is
/// recoloured: there, and the box it was with the row's colour.
pub open spec fn row_member(boxes: Seq<Tree>, path: Seq<i64>, i: i64) -> bool {
    let parent = path.drop_last();
    let sibs = siblings(boxes, parent);
    &&& valid(colour_row_spec(boxes, path), parent.push(i))
    &&& at_spec(colour_row_spec(boxes, path), parent.push(i)) == (Tree {
        colour: row_colour(sibs),
        ..sibs[i as int]
    })
}

/// The colour a row takes together: the next colour after the one its boxes
/// all share, or the first palette colour when they do not all share one.
pub proof fn law_row_colour(sibs: Seq<Tree>)
    requires
        sibs.len() > 0,
    ensures
        (forall|k: int| 0 <= k < sibs.len() ==> (#[trigger] sibs[k]).colour == sibs[0].colour) ==> row_colour(sibs)
            == (sibs[0].colour + 2) % 6 - 1,
        (exists|k: int| 0 <= k < sibs.len() && (#[trigger] sibs[k]).colour != sibs[0].colour) ==> row_colour(sibs)
            == 0,
{
}

/// Recolouring a row gives every box of the list that holds the selection
/// the row's colour (the next colour after the one they share, or the first
/// palette colour when they differ), and changes nothing else about them.
pub proof fn law_colour_row_recolours_the_row(boxes: Seq<Tree>, path: Seq<i64>)
    requires
        path.len() >= 1,
        selection_ok(boxes, path.drop_last()),
    ensures
        siblings(colour_row_spec(boxes, path), path.drop_last()).len() == siblings(
            boxes,
            path.drop_last(),
        ).len(),
        forall|i: i64|
            0 <= i < siblings(boxes, path.drop_last()).len() ==> #[trigger] row_member(boxes, path, i),
{
    let parent = path.drop_last();
    let sibs = siblings(boxes, parent);
    let row = recolour(sibs, row_colour(sibs));
    assert forall|i: i64| 0 <= i < siblings(boxes, path.drop_last()).len() implies #[trigger] row_member(
        boxes,
        path,
        i,
    ) by {
        lemma_row_member(boxes, path, i);
    }
    if parent.len() > 0 {
        lemma_with_node(boxes, parent, Tree { children: row, ..at_spec(boxes, parent) });
    }
}

proof fn lemma_row_member(boxes: Seq<Tree>, path: Seq<i64>, i: i64)
    requires
        path.len() >= 1,
        selection_ok(boxes, path.drop_last()),
        0 <= i < siblings(boxes, path.drop_last()).len(),
    ensures
        row_member(boxes, path, i),
{
    let parent = path.drop_last();
    let sibs = siblings(boxes, parent);
    let row = recolour(sibs, row_colour(sibs));
    lemma_with_siblings(boxes, parent, row, i);
    assert(row[i as int] == (Tree { colour: row_colour(sibs), ..sibs[i as int] }));
}

/// The editor is ready for a key, and so is every state that undo can go
/// back to.
pub open spec fn wf(s: StateModel) -> bool
    decreases s,
{
    &&& ready(s)
    &&& match s.before {
        Some(b) => wf(*b),
        None => true,
    }
}

proof fn lemma_grow_ready(s: StateModel, at_path: Seq<i64>)
    requires
        selection_ok(s.boxes, at_path),
        grow_fits(s.boxes, at_path),
    ensures
        ({
            let g = grow_spec(s.boxes, at_path);
            valid(g.0, g.1)
        }),
{
    let g = grow_spec(s.boxes, at_path);
    if at_path.len() == 0 {
        assert(g.1 =~= Seq::<i64>::empty().push(s.boxes.len() as i64));
        lemma_sibling(g.0, Seq::empty(), s.boxes.len() as i64);
    } else {
        let n = at_spec(s.boxes, at_path);
        lemma_with_node(s.boxes, at_path, edit_spec(n, Edit::Grow));
        lemma_child(g.0, at_path, n.children.len() as i64);
    }
}

proof fn lemma_command_keeps_wf(s: StateModel, c: Command)
    requires
        wf(s),
        s.mode != INSERT_MODE@,
        command_fits(s, c),
    ensures
        wf(command_spec(s, c)),
{
    let sel = s.selected;
    let parent = sel.drop_last();
    let r = command_spec(s, c);
    if sel.len() > 0 {
        lemma_parent(s.boxes, sel);
    }
    match c {
        Command::Undo => {},
        Command::NewBox => {
            lemma_grow_ready(s, sel);
        },
        Command::NewSibling => {
            if sel.len() > 0 {
                lemma_grow_ready(s, parent);
            }
        },
        Command::SelectParent => {},
        Command::SelectChild => {
            if sel.len() > 0 && at_spec(s.boxes, sel).children.len() > 0 {
                lemma_child(s.boxes, sel, 0);
            }
        },
        Command::SelectNext => {
            if sel.len() > 0 && sel.last() + 1 < siblings(s.boxes, parent).len() {
                lemma_sibling(s.boxes, parent, (sel.last() + 1) as i64);
            }
        },
        Command::SelectPrevious => {
            if sel.len() > 0 && sel.last() != 0 {
                lemma_sibling(s.boxes, parent, (sel.last() - 1) as i64);
            }
        },
        Command::EditLabel | Command::RenameLabel => {
            if sel.len() > 0 {
                let base = if c == Command::EditLabel { at_spec(s.boxes, sel).label } else { Seq::empty() };
                lemma_with_node(s.boxes, sel, Tree { label: base.push(' '), ..at_spec(s.boxes, sel) });
            }
        },
        Command::CycleColour | Command::CycleFill | Command::ToggleRounded => {
            if sel.len() > 0 {
                let e = if c == Command::CycleColour {
                    Edit::CycleColour
                } else if c == Command::CycleFill {
                    Edit::CycleFill
                } else {
                    Edit::ToggleRounded
                };
                lemma_with_node(s.boxes, sel, edit_spec(at_spec(s.boxes, sel), e));
            }
        },
        Command::CycleSiblingsColour => {
            if sel.len() > 1 {
                let sibs = siblings(s.boxes, parent);
                lemma_with_siblings(s.boxes, parent, recolour(sibs, row_colour(sibs)), sel.last());
                assert(parent.push(sel.last()) =~= sel);
            }
        },
        Command::Quit => {},
    }
}

proof fn lemma_insert_keeps_wf(s: StateModel, k: Seq<char>)
    requires
        wf(s),
        s.mode == INSERT_MODE@,
    ensures
        wf(handle_insert_spec(s, k)),
{
    let label = at_spec(s.boxes, s.selected).label;
    let n = at_spec(s.boxes, s.selected);
    lemma_with_node(s.boxes, s.selected, Tree { label: drop_last_chars_spec(label, 1), ..n });
    lemma_with_node(s.boxes, s.selected, Tree { label: drop_last_chars_spec(label, 2).push(' '), ..n });
    lemma_with_node(s.boxes, s.selected, Tree { label: (drop_last_chars_spec(label, 1) + k).push(' '), ..n });
}

/// An editor whose selection is empty or leads to a box, and leads to one in
/// insert mode, can take any key.
pub proof fn law_a_ready_editor_takes_every_key(s: StateModel, k: Seq<char>)
    requires
        ready(s),
    ensures
        ready_for(s, k),
{
    if let Some(c) = parse_spec(k) {
        lemma_selection_ready(s.boxes, s.selected, c);
    }
}

/// Every key leaves the editor ready for the next one, with every state
/// that undo can go back to ready too.
pub proof fn law_keys_keep_the_editor_ready(s: StateModel, k: Seq<char>)
    requires
        wf(s),
        key_fits(s, k),
    ensures
        wf(handle_key_spec(s, k)),
{
    if s.mode == INSERT_MODE@ {
        lemma_insert_keeps_wf(s, k);
    } else {
        match parse_spec(k) {
            None => {},
            Some(c) => {
                if is_undoable_spec(c) {
                    let inner = StateModel { before: None, ..s };
                    assert(wf(inner));
                    assert(wf(with_snapshot(s)));
                    lemma_command_keeps_wf(with_snapshot(s), c);
                } else {
                    lemma_command_keeps_wf(s, c);
                }
            },
        }
    }
}

/// Undo takes back an undoable command: once the editor is back in command
/// mode after it, `u` gives back the state from before the command, boxes,
/// selection, mode and all.
pub proof fn law_undo_takes_back_a_command(s: StateModel, k: Seq<char>)
    requires
        s.mode != INSERT_MODE@,
        parse_spec(k) matches Some(c) && is_undoable_spec(c),
        handle_key_spec(s, k).mode != INSERT_MODE@,
    ensures
        handle_key_spec(handle_key_spec(s, k), seq!['u']) == (StateModel { before: None, ..s }),
{
}

/// Only undoable commands and undo itself change what undo goes back to:
/// moving the selection, quitting, an unknown key and typing keep it.
pub proof fn law_other_keys_keep_the_undo_state(s: StateModel, k: Seq<char>)
    requires
        s.mode == INSERT_MODE@ || !(parse_spec(k) matches Some(c) && (is_undoable_spec(c) || c == Command::Undo)),
    ensures
        handle_key_spec(s, k).before == s.before,
{
}

/// A box after `k` presses of the colour key.
pub open spec fn colour_presses(n: Tree, k: nat) -> Tree
    decreases k,
{
    if k == 0 {
        n
    } else {
        edit_spec(colour_presses(n, (k - 1) as nat), Edit::CycleColour)
    }
}

/// The colour key walks a box's colour through every palette colour in turn
/// and back to plain: press `k` (up to six) gives the colour `k` places
/// further round the cycle of six, so six presses come back and no fewer
/// do; nothing else about the box changes.
pub proof fn law_colour_walks_the_palette(n: Tree, k: nat)
    requires
        PLAIN <= n.colour < PALETTE_SIZE,
        k <= 6,
    ensures
        colour_presses(n, k).colour == (n.colour + 1 + k) % 6 - 1,
        colour_presses(n, k) == (Tree { colour: colour_presses(n, k).colour, ..n }),
        0 < k < 6 ==> colour_presses(n, k).colour != n.colour,
    decreases k,
{
    assert(next_colour_spec(-1) == 0);
    assert(next_colour_spec(0) == 1);
    assert(next_colour_spec(1) == 2);
    assert(next_colour_spec(2) == 3);
    assert(next_colour_spec(3) == 4);
    assert(next_colour_spec(4) == -1);
    if k > 0 {
        law_colour_walks_the_palette(n, (k - 1) as nat);
    }
}

/// The corner key flips a box between square and rounded corners, and
/// changes nothing else; pressing it twice gives the box back.
pub proof fn law_rounded_flips(n: Tree)
    ensures
        edit_spec(n, Edit::ToggleRounded).rounded != n.rounded,
        edit_spec(n, Edit::ToggleRounded) == (Tree { rounded: !n.rounded, ..n }),
        edit_spec(edit_spec(n, Edit::ToggleRounded), Edit::ToggleRounded) == n,
{
}

/// A box after `k` presses of the fill key.
pub open spec fn fill_presses(n: Tree, k: nat) -> Tree
    decreases k,
{
    if k == 0 {
        n
    } else {
        edit_spec(fill_presses(n, (k - 1) as nat), Edit::CycleFill)
    }
}

/// The fill key walks a box's fill through every palette colour in turn
/// and back to plain: from plain or any palette colour, press `k` (up to
/// six) gives the fill `k` places further round the cycle of six, so six
/// presses come back and no fewer do; nothing else about the box changes.
pub proof fn law_fill_walks_the_palette(n: Tree, k: nat)
    requires
        PLAIN <= n.fill < PALETTE_SIZE,
        k <= 6,
    ensures
        fill_presses(n, k).fill == (n.fill + 1 + k) % 6 - 1,
        fill_presses(n, k) == (Tree { fill: fill_presses(n, k).fill, ..n }),
        0 < k < 6 ==> fill_presses(n, k).fill != n.fill,
        fill_presses(n, 6).fill == n.fill,
    decreases k,
{
    assert(next_colour_spec(-1) == 0);
    assert(next_colour_spec(0) == 1);
    assert(next_colour_spec(1) == 2);
    assert(next_colour_spec(2) == 3);
    assert(next_colour_spec(3) == 4);
    assert(next_colour_spec(4) == -1);
    if k > 0 {
        law_fill_walks_the_palette(n, (k - 1) as nat);
    }
    reveal_with_fuel(fill_presses, 7);
    assert(fill_presses(n, 6).fill == n.fill) by {
        lemma_six_fill_presses(n);
    }
}

proof fn lemma_six_fill_presses(n: Tree)
    requires
        PLAIN <= n.fill < PALETTE_SIZE,
    ensures
        fill_presses(n, 6).fill == n.fill,
{
    assert(next_colour_spec(-1) == 0);
    assert(next_colour_spec(0) == 1);
    assert(next_colour_spec(1) == 2);
    assert(next_colour_spec(2) == 3);
    assert(next_colour_spec(3) == 4);
    assert(next_colour_spec(4) == -1);
    reveal_with_fuel(fill_presses, 7);
}

/// The colour after `k` steps along the palette cycle.
pub open spec fn advance(colour: int, k: nat) -> int
    decreases k,
{
    if k == 0 {
        colour
    } else {
        next_colour_spec(advance(colour, (k - 1) as nat))
    }
}

spec fn returns_in_six(colour: int) -> bool {
    &&& advance(colour, 6) == colour
    &&& advance(colour, 1) != colour
    &&& advance(colour, 2) != colour
    &&& advance(colour, 3) != colour
    &&& advance(colour, 4) != colour
    &&& advance(colour, 5) != colour
}

/// The palette cycle: from plain or any palette colour, six steps come back
/// to where they started, and no fewer do.
pub proof fn law_colours_cycle_in_six_steps(colour: int)
    requires
        PLAIN <= colour < PALETTE_SIZE,
    ensures
        advance(colour, 6) == colour,
        forall|k: nat| 0 < k < 6 ==> #[trigger] advance(colour, k) != colour,
{
    assert(next_colour_spec(-1) == 0);
    assert(next_colour_spec(0) == 1);
    assert(next_colour_spec(1) == 2);
    assert(next_colour_spec(2) == 3);
    assert(next_colour_spec(3) == 4);
    assert(next_colour_spec(4) == -1);
    assert(returns_in_six(colour)) by {
        reveal_with_fuel(advance, 7);
    }
    assert forall|k: nat| 0 < k < 6 implies #[trigger] advance(colour, k) != colour by {
        assert(k == 1 || k == 2 || k == 3 || k == 4 || k == 5);
    }
}

} // verus!
