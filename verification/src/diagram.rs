use vstd::prelude::*;
use crate::palette::PALETTE_LEN;
use crate::text::{owned, push_char};

verus! {

/// One box of a diagram, with the boxes nested under it.
#[derive(Debug, PartialEq, Default)]
pub struct Node {
    pub label: String,
    pub colour: Option<u8>,
    pub filled: bool,
    pub rounded: bool,
    pub children: Vec<Node>,
    pub hint: bool,
}

/// What a box is, as a mathematical value.
#[verifier::ext_equal]
pub struct BoxModel {
    pub label: Seq<char>,
    pub colour: Option<u8>,
    pub filled: bool,
    pub rounded: bool,
    pub children: Seq<BoxModel>,
    pub hint: bool,
}

pub open spec fn model(n: Node) -> BoxModel
    decreases n,
{
    BoxModel {
        label: n.label@,
        colour: n.colour,
        filled: n.filled,
        rounded: n.rounded,
        children: models(n.children@),
        hint: n.hint,
    }
}

pub open spec fn models(ns: Seq<Node>) -> Seq<BoxModel>
    decreases ns,
{
    if ns.len() == 0 {
        Seq::empty()
    } else {
        models(ns.drop_last()).push(model(ns.last()))
    }
}

pub proof fn lemma_models(ns: Seq<Node>)
    ensures
        models(ns).len() == ns.len(),
        forall|i: int| 0 <= i < ns.len() ==> #[trigger] models(ns)[i] == model(ns[i]),
    decreases ns.len(),
{
    if ns.len() > 0 {
        lemma_models(ns.drop_last());
    }
}

pub proof fn lemma_models_update(ns: Seq<Node>, i: int, n: Node)
    requires
        0 <= i < ns.len(),
    ensures
        models(ns.update(i, n)) == models(ns).update(i, model(n)),
{
    lemma_models(ns);
    lemma_models(ns.update(i, n));
    assert(models(ns.update(i, n)) =~= models(ns).update(i, model(n)));
}

pub proof fn lemma_models_push(ns: Seq<Node>, n: Node)
    ensures
        models(ns.push(n)) == models(ns).push(model(n)),
{
    assert(ns.push(n).drop_last() =~= ns);
}

/// A box by the indices of its ancestors and its own index among its siblings.
#[derive(Debug, PartialEq)]
pub struct Path {
    pub ancestors: Vec<usize>,
    pub index: usize,
}

pub struct PathModel {
    pub ancestors: Seq<usize>,
    pub index: usize,
}

impl View for Path {
    type V = PathModel;

    open spec fn view(&self) -> PathModel {
        PathModel { ancestors: self.ancestors@, index: self.index }
    }
}

/// The ancestors lead through existing boxes.
pub open spec fn valid_ancestors(boxes: Seq<BoxModel>, anc: Seq<usize>) -> bool
    decreases anc.len(),
{
    anc.len() == 0 || (anc[0] < boxes.len() && valid_ancestors(
        boxes[anc[0] as int].children,
        anc.drop_first(),
    ))
}

/// The list of boxes that the ancestors lead to.
pub open spec fn siblings_at(boxes: Seq<BoxModel>, anc: Seq<usize>) -> Seq<BoxModel>
    decreases anc.len(),
{
    if anc.len() == 0 {
        boxes
    } else {
        siblings_at(boxes[anc[0] as int].children, anc.drop_first())
    }
}

/// The forest with the list of boxes that the ancestors lead to replaced by `new`.
pub open spec fn replace_siblings(boxes: Seq<BoxModel>, anc: Seq<usize>, new: Seq<BoxModel>) -> Seq<
    BoxModel,
>
    decreases anc.len(),
{
    if anc.len() == 0 {
        new
    } else {
        let i = anc[0] as int;
        boxes.update(
            i,
            BoxModel { children: replace_siblings(boxes[i].children, anc.drop_first(), new), ..boxes[i] },
        )
    }
}

pub open spec fn valid_path(boxes: Seq<BoxModel>, p: PathModel) -> bool {
    valid_ancestors(boxes, p.ancestors) && p.index < siblings_at(boxes, p.ancestors).len()
}

pub open spec fn node_at(boxes: Seq<BoxModel>, p: PathModel) -> BoxModel {
    siblings_at(boxes, p.ancestors)[p.index as int]
}

pub proof fn lemma_replace_keeps_ancestors(boxes: Seq<BoxModel>, anc: Seq<usize>, new: Seq<BoxModel>)
    requires
        valid_ancestors(boxes, anc),
    ensures
        valid_ancestors(replace_siblings(boxes, anc, new), anc),
        siblings_at(replace_siblings(boxes, anc, new), anc) == new,
    decreases anc.len(),
{
    if anc.len() > 0 {
        lemma_replace_keeps_ancestors(boxes[anc[0] as int].children, anc.drop_first(), new);
    }
}

pub proof fn lemma_replace_twice(
    boxes: Seq<BoxModel>,
    anc: Seq<usize>,
    a: Seq<BoxModel>,
    b: Seq<BoxModel>,
)
    requires
        valid_ancestors(boxes, anc),
    ensures
        replace_siblings(replace_siblings(boxes, anc, a), anc, b) == replace_siblings(boxes, anc, b),
    decreases anc.len(),
{
    if anc.len() > 0 {
        let i = anc[0] as int;
        lemma_replace_twice(boxes[i].children, anc.drop_first(), a, b);
        assert(replace_siblings(replace_siblings(boxes, anc, a), anc, b) =~= replace_siblings(
            boxes,
            anc,
            b,
        ));
    }
}

pub proof fn lemma_replace_same(boxes: Seq<BoxModel>, anc: Seq<usize>)
    requires
        valid_ancestors(boxes, anc),
    ensures
        replace_siblings(boxes, anc, siblings_at(boxes, anc)) == boxes,
    decreases anc.len(),
{
    if anc.len() > 0 {
        let i = anc[0] as int;
        lemma_replace_same(boxes[i].children, anc.drop_first());
        assert(replace_siblings(boxes, anc, siblings_at(boxes, anc)) =~= boxes);
    }
}

fn take_siblings(nodes: &mut Vec<Node>, anc: &Vec<usize>, depth: usize) -> (r: Vec<Node>)
    requires
        depth <= anc.len(),
        valid_ancestors(models(old(nodes)@), anc@.skip(depth as int)),
    ensures
        models(r@) == siblings_at(models(old(nodes)@), anc@.skip(depth as int)),
        models(final(nodes)@) == replace_siblings(
            models(old(nodes)@),
            anc@.skip(depth as int),
            Seq::empty(),
        ),
    decreases anc.len() - depth,
{
    let ghost before = models(nodes@);
    let ghost rest = anc@.skip(depth as int);
    if depth == anc.len() {
        let mut r: Vec<Node> = Vec::new();
        std::mem::swap(nodes, &mut r);
        proof {
            assert(models(Seq::<Node>::empty()) =~= Seq::<BoxModel>::empty());
        }
        r
    } else {
        let i = anc[depth];
        proof {
            lemma_models(nodes@);
            assert(rest.drop_first() =~= anc@.skip(depth + 1));
        }
        let ghost old_node = nodes@[i as int];
        let r = take_siblings(&mut nodes[i].children, anc, depth + 1);
        proof {
            lemma_models_update(old(nodes)@, i as int, nodes@[i as int]);
        }
        r
    }
}


fn put_siblings(nodes: &mut Vec<Node>, anc: &Vec<usize>, depth: usize, new: Vec<Node>)
    requires
        depth <= anc.len(),
        valid_ancestors(models(old(nodes)@), anc@.skip(depth as int)),
    ensures
        models(final(nodes)@) == replace_siblings(
            models(old(nodes)@),
            anc@.skip(depth as int),
            models(new@),
        ),
    decreases anc.len() - depth,
{
    let ghost rest = anc@.skip(depth as int);
    if depth == anc.len() {
        *nodes = new;
    } else {
        let i = anc[depth];
        proof {
            lemma_models(nodes@);
            assert(rest.drop_first() =~= anc@.skip(depth + 1));
        }
        put_siblings(&mut nodes[i].children, anc, depth + 1, new);
        proof {
            lemma_models_update(old(nodes)@, i as int, nodes@[i as int]);
        }
    }
}

/// A copy of a box and everything under it.
pub fn copy_node(n: &Node) -> (r: Node)
    ensures
        model(r) == model(*n),
    decreases n,
{
    Node {
        label: n.label.clone(),
        colour: n.colour,
        filled: n.filled,
        rounded: n.rounded,
        children: copy_nodes(&n.children),
        hint: n.hint,
    }
}

/// A copy of a list of boxes and everything under them.
pub fn copy_nodes(ns: &Vec<Node>) -> (r: Vec<Node>)
    ensures
        models(r@) == models(ns@),
    decreases ns,
{
    let mut r: Vec<Node> = Vec::new();
    let mut i: usize = 0;
    while i < ns.len()
        invariant
            i <= ns.len(),
            models(r@) == models(ns@.take(i as int)),
        decreases ns.len() - i,
    {
        proof {
            assert(decreases_to!(ns => ns@));
            assert(decreases_to!(ns@ => ns@[i as int]));
        }
        let c = copy_node(&ns[i]);
        proof {
            lemma_models_push(r@, c);
            lemma_models_push(ns@.take(i as int), ns@[i as int]);
            assert(ns@.take(i as int).push(ns@[i as int]) =~= ns@.take(i + 1));
        }
        r.push(c);
        i = i + 1;
    }
    proof {
        assert(ns@.take(i as int) =~= ns@);
    }
    r
}


impl Clone for Node {
    fn clone(&self) -> (r: Self)
        ensures
            model(r) == model(*self),
    {
        copy_node(self)
    }
}

/// A copy of a list of indices.
pub fn copy_indices(v: &Vec<usize>) -> (r: Vec<usize>)
    ensures
        r@ == v@,
{
    let mut r: Vec<usize> = Vec::new();
    let mut i: usize = 0;
    while i < v.len()
        invariant
            i <= v.len(),
            r@ == v@.take(i as int),
        decreases v.len() - i,
    {
        r.push(v[i]);
        i = i + 1;
        proof {
            assert(r@ =~= v@.take(i as int));
        }
    }
    proof {
        assert(v@.take(i as int) =~= v@);
    }
    r
}

impl Clone for Path {
    fn clone(&self) -> (r: Self)
        ensures
            r@ == self@,
    {
        Path { ancestors: copy_indices(&self.ancestors), index: self.index }
    }
}

/// Every index on the way to a box, its own last.
pub open spec fn path_indices(p: PathModel) -> Seq<usize> {
    p.ancestors.push(p.index)
}

pub open spec fn selection_indices(p: Option<PathModel>) -> Option<Seq<usize>> {
    match p {
        Some(p) => Some(path_indices(p)),
        None => None,
    }
}

/// The indices that lead to the box at a path, from the top.
pub fn indices(path: &Path) -> (r: Vec<usize>)
    ensures
        r@ == path_indices(path@),
{
    let mut r = copy_indices(&path.ancestors);
    r.push(path.index);
    r
}


/// A forest of boxes and the box that is selected, if any.
#[derive(Debug, PartialEq, Default)]
pub struct Document {
    pub boxes: Vec<Node>,
    pub selected: Option<Path>,
}

#[verifier::ext_equal]
pub struct DocModel {
    pub boxes: Seq<BoxModel>,
    pub selected: Option<PathModel>,
}

pub open spec fn path_opt(p: Option<Path>) -> Option<PathModel> {
    match p {
        Some(p) => Some(p@),
        None => None,
    }
}

impl View for Document {
    type V = DocModel;

    open spec fn view(&self) -> DocModel {
        DocModel { boxes: models(self.boxes@), selected: path_opt(self.selected) }
    }
}

/// A copy of an optional path.
pub fn copy_path_opt(p: &Option<Path>) -> (r: Option<Path>)
    ensures
        path_opt(r) == path_opt(*p),
{
    match p {
        Some(p) => Some(p.clone()),
        None => None,
    }
}

impl Clone for Document {
    fn clone(&self) -> (r: Self)
        ensures
            r@ == self@,
    {
        Document { boxes: copy_nodes(&self.boxes), selected: copy_path_opt(&self.selected) }
    }
}

/// A colour is plain or one of the palette's.
pub open spec fn colour_ok(c: Option<u8>) -> bool {
    match c {
        None => true,
        Some(i) => i < PALETTE_LEN,
    }
}

/// Every box of the forest is plain or coloured from the palette.
pub open spec fn colours_ok(bs: Seq<BoxModel>) -> bool
    decreases bs,
{
    if bs.len() == 0 {
        true
    } else {
        colours_ok(bs.drop_last()) && box_colours_ok(bs.last())
    }
}

pub open spec fn box_colours_ok(b: BoxModel) -> bool
    decreases b,
{
    colour_ok(b.colour) && colours_ok(b.children)
}

pub proof fn lemma_colours_ok(bs: Seq<BoxModel>)
    ensures
        colours_ok(bs) <==> forall|i: int| 0 <= i < bs.len() ==> #[trigger] box_colours_ok(bs[i]),
    decreases bs.len(),
{
    if bs.len() > 0 {
        lemma_colours_ok(bs.drop_last());
        if colours_ok(bs) {
            assert forall|i: int| 0 <= i < bs.len() implies #[trigger] box_colours_ok(bs[i]) by {
                if i < bs.len() - 1 {
                    assert(bs.drop_last()[i] == bs[i]);
                }
            }
        }
        if forall|i: int| 0 <= i < bs.len() ==> #[trigger] box_colours_ok(bs[i]) {
            assert forall|i: int| 0 <= i < bs.drop_last().len() implies #[trigger] box_colours_ok(
                bs.drop_last()[i],
            ) by {
                assert(bs.drop_last()[i] == bs[i]);
            }
            assert(box_colours_ok(bs[bs.len() - 1]));
        }
    }
}

pub proof fn lemma_colours_ok_update(bs: Seq<BoxModel>, i: int, b: BoxModel)
    requires
        colours_ok(bs),
        0 <= i < bs.len(),
        box_colours_ok(b),
    ensures
        colours_ok(bs.update(i, b)),
{
    lemma_colours_ok(bs);
    lemma_colours_ok(bs.update(i, b));
}

pub proof fn lemma_colours_ok_push(bs: Seq<BoxModel>, b: BoxModel)
    requires
        colours_ok(bs),
        box_colours_ok(b),
    ensures
        colours_ok(bs.push(b)),
{
    assert(bs.push(b).drop_last() =~= bs);
}

pub proof fn lemma_colours_ok_siblings(bs: Seq<BoxModel>, anc: Seq<usize>)
    requires
        colours_ok(bs),
        valid_ancestors(bs, anc),
    ensures
        colours_ok(siblings_at(bs, anc)),
    decreases anc.len(),
{
    if anc.len() > 0 {
        lemma_colours_ok(bs);
        assert(box_colours_ok(bs[anc[0] as int]));
        lemma_colours_ok_siblings(bs[anc[0] as int].children, anc.drop_first());
    }
}

pub proof fn lemma_colours_ok_replace(bs: Seq<BoxModel>, anc: Seq<usize>, new: Seq<BoxModel>)
    requires
        colours_ok(bs),
        colours_ok(new),
        valid_ancestors(bs, anc),
    ensures
        colours_ok(replace_siblings(bs, anc, new)),
    decreases anc.len(),
{
    if anc.len() > 0 {
        let i = anc[0] as int;
        lemma_colours_ok(bs);
        assert(box_colours_ok(bs[i]));
        lemma_colours_ok_replace(bs[i].children, anc.drop_first(), new);
        lemma_colours_ok_update(
            bs,
            i,
            BoxModel { children: replace_siblings(bs[i].children, anc.drop_first(), new), ..bs[i] },
        );
    }
}

/// Following one more index from the ancestors reaches that box's children.
pub proof fn lemma_ancestors_push(bs: Seq<BoxModel>, anc: Seq<usize>, i: usize)
    ensures
        valid_ancestors(bs, anc.push(i)) <==> (valid_ancestors(bs, anc) && i < siblings_at(
            bs,
            anc,
        ).len()),
        valid_ancestors(bs, anc.push(i)) ==> siblings_at(bs, anc.push(i)) == siblings_at(
            bs,
            anc,
        )[i as int].children,
    decreases anc.len(),
{
    if anc.len() > 0 {
        assert(anc.push(i).drop_first() =~= anc.drop_first().push(i));
        assert(anc.push(i)[0] == anc[0]);
        if anc[0] < bs.len() {
            lemma_ancestors_push(bs[anc[0] as int].children, anc.drop_first(), i);
        }
    } else {
        assert(anc.push(i).drop_first() =~= Seq::<usize>::empty());
        assert(anc.push(i)[0] == i);
        if i < bs.len() {
            assert(valid_ancestors(bs[i as int].children, Seq::<usize>::empty()));
            assert(siblings_at(bs[i as int].children, Seq::<usize>::empty()) == bs[i as int].children);
        }
    }
}

/// Replacing a list of boxes leaves every list above it on the way reachable.
pub proof fn lemma_replace_keeps_prefix(
    bs: Seq<BoxModel>,
    anc: Seq<usize>,
    k: int,
    new: Seq<BoxModel>,
)
    requires
        valid_ancestors(bs, anc),
        0 <= k <= anc.len(),
    ensures
        valid_ancestors(replace_siblings(bs, anc, new), anc.take(k)),
        k < anc.len() ==> siblings_at(replace_siblings(bs, anc, new), anc.take(k)).len()
            == siblings_at(bs, anc.take(k)).len(),
    decreases anc.len(),
{
    if anc.len() > 0 && k > 0 {
        let i = anc[0] as int;
        assert(anc.take(k).drop_first() =~= anc.drop_first().take(k - 1));
        lemma_replace_keeps_prefix(bs[i].children, anc.drop_first(), k - 1, new);
    } else if k == 0 {
        assert(anc.take(k) =~= Seq::<usize>::empty());
    }
}

/// The forest with one box replaced.
pub open spec fn with_node(bs: Seq<BoxModel>, p: PathModel, n: BoxModel) -> Seq<BoxModel> {
    replace_siblings(bs, p.ancestors, siblings_at(bs, p.ancestors).update(p.index as int, n))
}

/// The forest with a box appended to the list that the ancestors lead to.
pub open spec fn with_appended(bs: Seq<BoxModel>, anc: Seq<usize>, n: BoxModel) -> Seq<BoxModel> {
    replace_siblings(bs, anc, siblings_at(bs, anc).push(n))
}

/// The box that a new box starts as: a label of one space to type over.
pub open spec fn blank_model() -> BoxModel {
    BoxModel {
        label: seq![' '],
        colour: None,
        filled: false,
        rounded: false,
        children: Seq::empty(),
        hint: false,
    }
}

/// A new, blank box.
pub fn blank_box() -> (r: Node)
    ensures
        model(r) == blank_model(),
{
    let mut label = String::new();
    push_char(&mut label, ' ');
    let r = Node {
        label,
        colour: None,
        filled: false,
        rounded: false,
        children: Vec::new(),
        hint: false,
    };
    proof {
        assert(Seq::<char>::empty().push(' ') =~= seq![' ']);
        assert(models(r.children@) =~= Seq::<BoxModel>::empty());
        assert(model(r) =~= blank_model());
    }
    r
}

/// A plain box with the given label and no children.
pub fn node(label: &str) -> (r: Node)
    ensures
        model(r) == (BoxModel {
            label: label@,
            colour: None,
            filled: false,
            rounded: false,
            children: Seq::empty(),
            hint: false,
        }),
{
    let r = Node {
        label: owned(label),
        colour: None,
        filled: false,
        rounded: false,
        children: Vec::new(),
        hint: false,
    };
    proof {
        assert(models(r.children@) =~= Seq::<BoxModel>::empty());
    }
    r
}

/// A plain box with the given label and children.
pub fn node_with_children(label: &str, children: Vec<Node>) -> (r: Node)
    ensures
        model(r) == (BoxModel {
            label: label@,
            colour: None,
            filled: false,
            rounded: false,
            children: models(children@),
            hint: false,
        }),
{
    Node { label: owned(label), colour: None, filled: false, rounded: false, children, hint: false }
}

/// The list of boxes that the ancestors lead to.
pub fn children_at<'a>(boxes: &'a Vec<Node>, ancestors: &[usize]) -> (r: &'a Vec<Node>)
    requires
        valid_ancestors(models(boxes@), ancestors@),
    ensures
        models(r@) == siblings_at(models(boxes@), ancestors@),
{
    proof {
        assert(ancestors@.skip(0) =~= ancestors@);
    }
    children_from(boxes, ancestors, 0)
}

fn children_from<'a>(boxes: &'a Vec<Node>, ancestors: &[usize], depth: usize) -> (r: &'a Vec<Node>)
    requires
        depth <= ancestors@.len(),
        valid_ancestors(models(boxes@), ancestors@.skip(depth as int)),
    ensures
        models(r@) == siblings_at(models(boxes@), ancestors@.skip(depth as int)),
    decreases ancestors@.len() - depth,
{
    if depth == ancestors.len() {
        boxes
    } else {
        let i = ancestors[depth];
        proof {
            lemma_models(boxes@);
            assert(ancestors@.skip(depth as int).drop_first() =~= ancestors@.skip(depth + 1));
        }
        children_from(&boxes[i].children, ancestors, depth + 1)
    }
}

/// The box that a path addresses.
pub fn at<'a>(boxes: &'a Vec<Node>, path: &Path) -> (r: &'a Node)
    requires
        valid_path(models(boxes@), path@),
    ensures
        model(*r) == node_at(models(boxes@), path@),
{
    let siblings = children_at(boxes, path.ancestors.as_slice());
    proof {
        lemma_models(siblings@);
    }
    &siblings[path.index]
}

/// Appends a box to a list and gives its index.
pub fn append(siblings: &mut Vec<Node>, node: Node) -> (index: usize)
    ensures
        final(siblings)@ == old(siblings)@.push(node),
        models(final(siblings)@) == models(old(siblings)@).push(model(node)),
        index == old(siblings).len(),
{
    siblings.push(node);
    proof {
        lemma_models_push(old(siblings)@, node);
    }
    siblings.len() - 1
}

/// Takes out the list of boxes that the ancestors lead to, leaving it empty.
pub fn take_children(boxes: &mut Vec<Node>, ancestors: &Vec<usize>) -> (r: Vec<Node>)
    requires
        valid_ancestors(models(old(boxes)@), ancestors@),
    ensures
        models(r@) == siblings_at(models(old(boxes)@), ancestors@),
        models(final(boxes)@) == replace_siblings(models(old(boxes)@), ancestors@, Seq::empty()),
{
    proof {
        assert(ancestors@.skip(0) =~= ancestors@);
    }
    take_siblings(boxes, ancestors, 0)
}

/// Puts a list of boxes back where the ancestors lead.
pub fn put_children(boxes: &mut Vec<Node>, ancestors: &Vec<usize>, children: Vec<Node>)
    requires
        valid_ancestors(models(old(boxes)@), ancestors@),
    ensures
        models(final(boxes)@) == replace_siblings(models(old(boxes)@), ancestors@, models(children@)),
{
    proof {
        assert(ancestors@.skip(0) =~= ancestors@);
    }
    put_siblings(boxes, ancestors, 0, children)
}

/// Removes the box that a path addresses and gives it back with its descendants.
pub fn remove(boxes: &mut Vec<Node>, path: &Path) -> (r: Node)
    requires
        valid_path(models(old(boxes)@), path@),
    ensures
        model(r) == node_at(models(old(boxes)@), path@),
        models(final(boxes)@) == replace_siblings(
            models(old(boxes)@),
            path@.ancestors,
            siblings_at(models(old(boxes)@), path@.ancestors).remove(path.index as int),
        ),
{
    let ghost before = models(boxes@);
    let mut siblings = take_children(boxes, &path.ancestors);
    proof {
        lemma_models(siblings@);
    }
    let r = siblings.remove(path.index);
    proof {
        lemma_models(siblings@);
        assert(models(siblings@) =~= siblings_at(before, path@.ancestors).remove(path.index as int));
        lemma_replace_keeps_ancestors(before, path@.ancestors, Seq::empty());
    }
    put_children(boxes, &path.ancestors, siblings);
    proof {
        lemma_replace_twice(before, path@.ancestors, Seq::empty(), models(siblings@));
    }
    r
}


pub proof fn lemma_with_node_valid(bs: Seq<BoxModel>, p: PathModel, n: BoxModel, q: PathModel)
    requires
        valid_path(bs, p),
        q.ancestors == p.ancestors,
        q.index < siblings_at(bs, p.ancestors).len(),
    ensures
        valid_path(with_node(bs, p, n), q),
        node_at(with_node(bs, p, n), q) == (if q.index == p.index {
            n
        } else {
            node_at(bs, q)
        }),
        siblings_at(with_node(bs, p, n), p.ancestors) == siblings_at(bs, p.ancestors).update(
            p.index as int,
            n,
        ),
{
    lemma_replace_keeps_ancestors(
        bs,
        p.ancestors,
        siblings_at(bs, p.ancestors).update(p.index as int, n),
    );
}

pub proof fn lemma_with_node_twice(bs: Seq<BoxModel>, p: PathModel, a: BoxModel, b: BoxModel)
    requires
        valid_path(bs, p),
    ensures
        with_node(with_node(bs, p, a), p, b) == with_node(bs, p, b),
{
    let sib = siblings_at(bs, p.ancestors);
    lemma_replace_keeps_ancestors(bs, p.ancestors, sib.update(p.index as int, a));
    lemma_replace_twice(bs, p.ancestors, sib.update(p.index as int, a), sib.update(p.index as int, a).update(p.index as int, b));
    assert(sib.update(p.index as int, a).update(p.index as int, b) =~= sib.update(p.index as int, b));
}

pub proof fn lemma_with_node_same(bs: Seq<BoxModel>, p: PathModel)
    requires
        valid_path(bs, p),
    ensures
        with_node(bs, p, node_at(bs, p)) == bs,
{
    let sib = siblings_at(bs, p.ancestors);
    assert(sib.update(p.index as int, sib[p.index as int]) =~= sib);
    lemma_replace_same(bs, p.ancestors);
}

/// Puts `n` in place of the box that a path addresses and gives back the box that was there.
pub fn replace_node(boxes: &mut Vec<Node>, path: &Path, n: Node) -> (r: Node)
    requires
        valid_path(models(old(boxes)@), path@),
    ensures
        model(r) == node_at(models(old(boxes)@), path@),
        models(final(boxes)@) == with_node(models(old(boxes)@), path@, model(n)),
{
    let ghost before = models(boxes@);
    let mut siblings = take_children(boxes, &path.ancestors);
    proof {
        lemma_models(siblings@);
        lemma_replace_keeps_ancestors(before, path@.ancestors, Seq::empty());
    }
    let mut n = n;
    let ghost new_node = n;
    let ghost taken = siblings@;
    siblings.set_and_swap(path.index, &mut n);
    proof {
        lemma_models_update(taken, path.index as int, new_node);
    }
    put_children(boxes, &path.ancestors, siblings);
    proof {
        lemma_replace_twice(before, path@.ancestors, Seq::empty(), models(siblings@));
    }
    n
}

/// The same label, colour, settings and children, as mathematical values.
pub fn same_nodes(a: &Vec<Node>, b: &Vec<Node>) -> (r: bool)
    ensures
        r == (models(a@) == models(b@)),
    decreases a,
{
    proof {
        lemma_models(a@);
        lemma_models(b@);
    }
    if a.len() != b.len() {
        return false;
    }
    let mut i: usize = 0;
    while i < a.len()
        invariant
            a.len() == b.len(),
            i <= a.len(),
            models(a@).len() == a.len(),
            models(b@).len() == b.len(),
            forall|j: int| 0 <= j < a@.len() ==> #[trigger] models(a@)[j] == model(a@[j]),
            forall|j: int| 0 <= j < b@.len() ==> #[trigger] models(b@)[j] == model(b@[j]),
            forall|j: int| 0 <= j < i ==> models(a@)[j] == #[trigger] models(b@)[j],
        decreases a.len() - i,
    {
        proof {
            assert(decreases_to!(a => a@));
            assert(decreases_to!(a@ => a@[i as int]));
        }
        if !same_node(&a[i], &b[i]) {
            proof {
                assert(models(a@)[i as int] != models(b@)[i as int]);
            }
            return false;
        }
        i = i + 1;
    }
    proof {
        assert(models(a@) =~= models(b@));
    }
    true
}

/// Two boxes are equal as mathematical values.
pub fn same_node(a: &Node, b: &Node) -> (r: bool)
    ensures
        r == (model(*a) == model(*b)),
    decreases a,
{
    let same_colour = match (a.colour, b.colour) {
        (None, None) => true,
        (Some(x), Some(y)) => x == y,
        _ => false,
    };
    let r = a.label == b.label && same_colour && a.filled == b.filled && a.rounded == b.rounded
        && a.hint == b.hint && same_nodes(&a.children, &b.children);
    proof {
        if r {
            assert(model(*a) =~= model(*b));
        }
    }
    r
}

/// Two optional paths address the same box.
pub fn same_path_opt(a: &Option<Path>, b: &Option<Path>) -> (r: bool)
    ensures
        r == (path_opt(*a) == path_opt(*b)),
{
    match (a, b) {
        (None, None) => true,
        (Some(p), Some(q)) => {
            if p.index != q.index || p.ancestors.len() != q.ancestors.len() {
                return false;
            }
            let mut i: usize = 0;
            #[verifier::loop_isolation(false)]
            while i < p.ancestors.len()
                invariant
                    p.ancestors.len() == q.ancestors.len(),
                    i <= p.ancestors.len(),
                    forall|j: int| 0 <= j < i ==> p.ancestors@[j] == q.ancestors@[j],
                decreases p.ancestors.len() - i,
            {
                if p.ancestors[i] != q.ancestors[i] {
                    proof {
                        assert(p.ancestors@[i as int] != q.ancestors@[i as int]);
                        assert(p@.ancestors[i as int] != q@.ancestors[i as int]);
                        assert(p@.ancestors != q@.ancestors);
                        assert(path_opt(*a) == Some(p@));
                        assert(path_opt(*b) == Some(q@));
                    }
                    return false;
                }
                i = i + 1;
            }
            proof {
                assert(p.ancestors@ =~= q.ancestors@);
            }
            true
        },
        _ => false,
    }
}

/// Two documents hold the same boxes and the same selection.
pub fn same_document(a: &Document, b: &Document) -> (r: bool)
    ensures
        r == (a@ == b@),
{
    let r = same_nodes(&a.boxes, &b.boxes) && same_path_opt(&a.selected, &b.selected);
    proof {
        if r {
            assert(a@ =~= b@);
        }
    }
    r
}


/// Every prefix of a valid list of ancestors is valid.
pub proof fn lemma_ancestors_prefix(bs: Seq<BoxModel>, anc: Seq<usize>, m: int)
    requires
        valid_ancestors(bs, anc),
        0 <= m <= anc.len(),
    ensures
        valid_ancestors(bs, anc.take(m)),
        m < anc.len() ==> anc[m] < siblings_at(bs, anc.take(m)).len(),
    decreases anc.len(),
{
    if m == 0 {
        assert(anc.take(m) =~= Seq::<usize>::empty());
    } else {
        assert(anc.take(m).drop_first() =~= anc.drop_first().take(m - 1));
        assert(anc.take(m)[0] == anc[0]);
        lemma_ancestors_prefix(bs[anc[0] as int].children, anc.drop_first(), m - 1);
    }
}


/// The colour of every box of a palette-coloured forest is palette-coloured.
pub proof fn lemma_node_colour_ok(bs: Seq<BoxModel>, p: PathModel)
    requires
        colours_ok(bs),
        valid_path(bs, p),
    ensures
        box_colours_ok(node_at(bs, p)),
        colour_ok(node_at(bs, p).colour),
        colours_ok(siblings_at(bs, p.ancestors)),
{
    lemma_colours_ok_siblings(bs, p.ancestors);
    lemma_colours_ok(siblings_at(bs, p.ancestors));
    assert(box_colours_ok(siblings_at(bs, p.ancestors)[p.index as int]));
}

/// Two colours are the same.
pub fn same_colour(a: Option<u8>, b: Option<u8>) -> (r: bool)
    ensures
        r == (a == b),
{
    match (a, b) {
        (None, None) => true,
        (Some(x), Some(y)) => x == y,
        _ => false,
    }
}

} // verus!
