//! A diagram as it is kept in a file, and the way between it and the
//! document that the editor works on.
use vstd::prelude::*;
use crate::diagram::{
    BoxModel, DocModel, Document, Node, box_colours_ok, colour_ok, colours_ok, lemma_models_push, model,
    models,
};
use crate::palette::PALETTE_LEN;
use crate::state::{State, load, load_spec, state_wf, str_opt};
use crate::diagram::{PathModel, valid_path};

verus! {

/// A box as a file keeps it: a fill is the palette index of the fill colour.
#[derive(Debug, PartialEq)]
pub struct FileBox {
    pub label: String,
    pub colour: Option<u8>,
    pub fill: Option<u8>,
    pub rounded: bool,
    pub children: Vec<FileBox>,
}

/// The boxes at the top of a file.
#[derive(Debug, PartialEq, Default)]
pub struct FileDoc {
    pub boxes: Vec<FileBox>,
}

#[verifier::ext_equal]
pub struct FileBoxModel {
    pub label: Seq<char>,
    pub colour: Option<u8>,
    pub fill: Option<u8>,
    pub rounded: bool,
    pub children: Seq<FileBoxModel>,
}

pub open spec fn file_model(b: FileBox) -> FileBoxModel
    decreases b,
{
    FileBoxModel {
        label: b.label@,
        colour: b.colour,
        fill: b.fill,
        rounded: b.rounded,
        children: file_models(b.children@),
    }
}

pub open spec fn file_models(bs: Seq<FileBox>) -> Seq<FileBoxModel>
    decreases bs,
{
    if bs.len() == 0 {
        Seq::empty()
    } else {
        file_models(bs.drop_last()).push(file_model(bs.last()))
    }
}

proof fn lemma_file_models_push(bs: Seq<FileBox>, b: FileBox)
    ensures
        file_models(bs.push(b)) == file_models(bs).push(file_model(b)),
{
    assert(bs.push(b).drop_last() =~= bs);
}

/// How a box is saved: a fill is written only for a filled box that has a
/// colour, as that colour.
pub open spec fn saved(b: BoxModel) -> FileBoxModel
    decreases b,
{
    FileBoxModel {
        label: b.label,
        colour: b.colour,
        fill: if b.filled && b.colour is Some {
            b.colour
        } else {
            None
        },
        rounded: b.rounded,
        children: saved_all(b.children),
    }
}

pub open spec fn saved_all(bs: Seq<BoxModel>) -> Seq<FileBoxModel>
    decreases bs,
{
    if bs.len() == 0 {
        Seq::empty()
    } else {
        saved_all(bs.drop_last()).push(saved(bs.last()))
    }
}

/// How a box is opened: any fill makes it filled.
pub open spec fn opened(b: FileBoxModel) -> BoxModel
    decreases b,
{
    BoxModel {
        label: b.label,
        colour: b.colour,
        filled: b.fill is Some,
        rounded: b.rounded,
        children: opened_all(b.children),
        hint: false,
    }
}

pub open spec fn opened_all(bs: Seq<FileBoxModel>) -> Seq<BoxModel>
    decreases bs,
{
    if bs.len() == 0 {
        Seq::empty()
    } else {
        opened_all(bs.drop_last()).push(opened(bs.last()))
    }
}

fn file_box(node: &Node) -> (r: FileBox)
    ensures
        file_model(r) == saved(model(*node)),
    decreases node,
{
    let mut children: Vec<FileBox> = Vec::new();
    let mut i: usize = 0;
    proof {
        assert(node.children@.take(0) =~= Seq::<Node>::empty());
        assert(file_models(children@) =~= saved_all(models(node.children@.take(0))));
    }
    while i < node.children.len()
        invariant
            i <= node.children.len(),
            file_models(children@) == saved_all(models(node.children@.take(i as int))),
        decreases node.children.len() - i,
    {
        proof {
            assert(decreases_to!(node => node.children));
            assert(decreases_to!(node.children => node.children@));
            assert(decreases_to!(node.children@ => node.children@[i as int]));
        }
        let c = file_box(&node.children[i]);
        proof {
            let t = node.children@.take(i as int);
            assert(t.push(node.children@[i as int]) =~= node.children@.take(i + 1));
            lemma_models_push(t, node.children@[i as int]);
            lemma_file_models_push(children@, c);
            assert(models(t).push(model(node.children@[i as int])).drop_last() =~= models(t));
        }
        children.push(c);
        i = i + 1;
    }
    proof {
        assert(node.children@.take(i as int) =~= node.children@);
    }
    let fill = if node.filled && node.colour.is_some() {
        node.colour
    } else {
        None
    };
    FileBox { label: node.label.clone(), colour: node.colour, fill, rounded: node.rounded, children }
}

/// What a file keeps of a document.
pub open spec fn from_document_spec(doc: DocModel) -> Seq<FileBoxModel> {
    saved_all(doc.boxes)
}

/// The file contents for a document: labels, colours, fills, rounding and
/// nesting; the selection is not kept.
pub fn from_document(doc: &Document) -> (r: FileDoc)
    ensures
        file_models(r.boxes@) == from_document_spec(doc@),
{
    let mut boxes: Vec<FileBox> = Vec::new();
    let mut i: usize = 0;
    proof {
        assert(doc.boxes@.take(0) =~= Seq::<Node>::empty());
        assert(file_models(boxes@) =~= saved_all(models(doc.boxes@.take(0))));
    }
    while i < doc.boxes.len()
        invariant
            i <= doc.boxes.len(),
            file_models(boxes@) == saved_all(models(doc.boxes@.take(i as int))),
        decreases doc.boxes.len() - i,
    {
        let c = file_box(&doc.boxes[i]);
        proof {
            let t = doc.boxes@.take(i as int);
            assert(t.push(doc.boxes@[i as int]) =~= doc.boxes@.take(i + 1));
            lemma_models_push(t, doc.boxes@[i as int]);
            lemma_file_models_push(boxes@, c);
            assert(models(t).push(model(doc.boxes@[i as int])).drop_last() =~= models(t));
        }
        boxes.push(c);
        i = i + 1;
    }
    proof {
        assert(doc.boxes@.take(i as int) =~= doc.boxes@);
    }
    FileDoc { boxes }
}

fn node(file_box: FileBox) -> (r: Node)
    ensures
        model(r) == opened(file_model(file_box)),
    decreases file_box,
{
    let ghost fb = file_box;
    let FileBox { label, colour, fill, rounded, children } = file_box;
    let ghost all = children@;
    let mut nodes: Vec<Node> = Vec::new();
    let mut rest = children;
    proof {
        assert(all.take(0) =~= Seq::<FileBox>::empty());
        assert(models(nodes@) =~= opened_all(file_models(all.take(0))));
        assert(rest@ =~= all.skip(0));
    }
    while rest.len() > 0
        invariant
            all == fb.children@,
            fb == file_box,
            rest@.len() + nodes@.len() == all.len(),
            rest@ =~= all.skip(nodes@.len() as int),
            models(nodes@) == opened_all(file_models(all.take(nodes@.len() as int))),
        decreases rest.len(),
    {
        let ghost i = nodes@.len() as int;
        let c = rest.remove(0);
        proof {
            assert(c == all[i]);
            assert(decreases_to!(fb => fb.children));
            assert(decreases_to!(fb.children => fb.children@));
            assert(decreases_to!(fb.children@ => fb.children@[i]));
        }
        let n = node(c);
        proof {
            let t = all.take(i);
            assert(t.push(all[i]) =~= all.take(i + 1));
            lemma_models_push(nodes@, n);
            lemma_file_models_push(t, all[i]);
            assert(file_models(t).push(file_model(all[i])).drop_last() =~= file_models(t));
            assert(rest@ =~= all.skip(i + 1));
        }
        nodes.push(n);
    }
    proof {
        assert(all.take(nodes@.len() as int) =~= all);
    }
    Node { label, colour, filled: fill.is_some(), rounded, children: nodes, hint: false }
}

/// What a document opened from a file holds.
pub open spec fn to_document_spec(boxes: Seq<FileBoxModel>) -> DocModel {
    DocModel { boxes: opened_all(boxes), selected: None }
}

/// The document for file contents: every box with its label, colour, fill
/// and rounding, and nothing selected.
pub fn to_document(doc: FileDoc) -> (r: Document)
    ensures
        r@ == to_document_spec(file_models(doc.boxes@)),
{
    let holder = FileBox { label: String::new(), colour: None, fill: None, rounded: false, children: doc.boxes };
    let top = node(holder);
    Document { boxes: top.children, selected: None }
}

/// Every box of a file names a colour of the palette, or none.
pub open spec fn file_colours_ok(bs: Seq<FileBoxModel>) -> bool
    decreases bs,
{
    if bs.len() == 0 {
        true
    } else {
        file_colours_ok(bs.drop_last()) && file_box_colours_ok(bs.last())
    }
}

pub open spec fn file_box_colours_ok(b: FileBoxModel) -> bool
    decreases b,
{
    colour_ok(b.colour) && file_colours_ok(b.children)
}

/// Whether every box of a file names a colour of the palette, or none.
pub fn colours_valid(boxes: &Vec<FileBox>) -> (r: bool)
    ensures
        r == file_colours_ok(file_models(boxes@)),
    decreases boxes,
{
    let mut i: usize = 0;
    proof {
        assert(boxes@.take(0) =~= Seq::<FileBox>::empty());
    }
    while i < boxes.len()
        invariant
            i <= boxes.len(),
            file_colours_ok(file_models(boxes@.take(i as int))),
        decreases boxes.len() - i,
    {
        proof {
            assert(decreases_to!(boxes => boxes@));
            assert(decreases_to!(boxes@ => boxes@[i as int]));
            assert(decreases_to!(boxes@[i as int] => boxes@[i as int].children));
            let t = boxes@.take(i as int);
            assert(t.push(boxes@[i as int]) =~= boxes@.take(i + 1));
            lemma_file_models_push(t, boxes@[i as int]);
            assert(file_models(t).push(file_model(boxes@[i as int])).drop_last() =~= file_models(t));
        }
        let own = match boxes[i].colour {
            Some(c) => c < PALETTE_LEN,
            None => true,
        };
        if !own || !colours_valid(&boxes[i].children) {
            proof {
                let t = boxes@.take(i as int);
                if file_colours_ok(file_models(boxes@)) {
                    lemma_file_models_len(boxes@);
                    lemma_file_colours_prefix(file_models(boxes@), i as int + 1);
                    lemma_file_models_take(boxes@, i + 1);
                    let m = file_models(t).push(file_model(boxes@[i as int]));
                    assert(file_models(boxes@.take(i + 1)) == m);
                    assert(m.drop_last() =~= file_models(t));
                    assert(file_box_colours_ok(file_model(boxes@[i as int])));
                }
            }
            return false;
        }
        proof {
            let t = boxes@.take(i as int);
            let m = file_models(t).push(file_model(boxes@[i as int]));
            assert(file_models(boxes@.take(i + 1)) == m);
            assert(m.drop_last() =~= file_models(t));
            assert(file_box_colours_ok(file_model(boxes@[i as int])));
        }
        i = i + 1;
    }
    proof {
        assert(boxes@.take(i as int) =~= boxes@);
    }
    true
}

pub proof fn lemma_file_models_take(bs: Seq<FileBox>, i: int)
    requires
        0 <= i <= bs.len(),
    ensures
        file_models(bs.take(i)) == file_models(bs).take(i),
    decreases bs.len(),
{
    lemma_file_models_len(bs);
    if i < bs.len() {
        assert(bs.take(i) =~= bs.drop_last().take(i));
        lemma_file_models_take(bs.drop_last(), i);
        assert(bs =~= bs.drop_last().push(bs.last()));
        lemma_file_models_push(bs.drop_last(), bs.last());
        assert(file_models(bs).drop_last() =~= file_models(bs.drop_last()));
        assert(file_models(bs).take(i) =~= file_models(bs).drop_last().take(i));
    } else {
        assert(bs.take(i) =~= bs);
        lemma_file_models_len(bs);
        assert(file_models(bs).take(i) =~= file_models(bs));
    }
}

pub proof fn lemma_file_models_item(bs: Seq<FileBox>, i: int)
    requires
        0 <= i < bs.len(),
    ensures
        file_models(bs)[i] == file_model(bs[i]),
    decreases bs.len(),
{
    let d = bs.drop_last();
    assert(bs =~= d.push(bs.last()));
    lemma_file_models_push(d, bs.last());
    lemma_file_models_len(d);
    if i < bs.len() - 1 {
        lemma_file_models_item(d, i);
    }
}

pub proof fn lemma_file_models_len(bs: Seq<FileBox>)
    ensures
        file_models(bs).len() == bs.len(),
    decreases bs.len(),
{
    if bs.len() > 0 {
        lemma_file_models_len(bs.drop_last());
    }
}

proof fn lemma_file_colours_prefix(bs: Seq<FileBoxModel>, i: int)
    requires
        0 <= i <= bs.len(),
        file_colours_ok(bs),
    ensures
        file_colours_ok(bs.take(i)),
    decreases bs.len(),
{
    if i < bs.len() {
        assert(bs.take(i) =~= bs.drop_last().take(i));
        lemma_file_colours_prefix(bs.drop_last(), i);
    } else {
        assert(bs.take(i) =~= bs);
    }
}

proof fn lemma_opened_colours(b: FileBoxModel)
    requires
        file_box_colours_ok(b),
    ensures
        box_colours_ok(opened(b)),
    decreases b,
{
    lemma_opened_all_colours(b.children);
}

proof fn lemma_opened_all_colours(bs: Seq<FileBoxModel>)
    requires
        file_colours_ok(bs),
    ensures
        colours_ok(opened_all(bs)),
    decreases bs,
{
    if bs.len() > 0 {
        lemma_opened_all_colours(bs.drop_last());
        lemma_opened_colours(bs.last());
        assert(opened_all(bs).drop_last() =~= opened_all(bs.drop_last()));
    }
}

/// A file whose colours are all from the palette opens as a document whose
/// colours are.
pub proof fn lemma_opened_document_colours(bs: Seq<FileBoxModel>)
    requires
        file_colours_ok(bs),
    ensures
        colours_ok(to_document_spec(bs).boxes),
{
    lemma_opened_all_colours(bs);
}

/// The state for editing a file's diagram, to be saved back to `save_to`:
/// nothing when a box names a colour outside the palette.
pub fn open(file: FileDoc, save_to: Option<String>) -> (r: Option<State>)
    ensures
        match r {
            Some(s) => file_colours_ok(file_models(file.boxes@)) && s@ == load_spec(
                to_document_spec(file_models(file.boxes@)),
                str_opt(save_to),
            ) && state_wf(s@),
            None => !file_colours_ok(file_models(file.boxes@)),
        },
{
    if !colours_valid(&file.boxes) {
        return None;
    }
    let ghost bs = file_models(file.boxes@);
    let doc = to_document(file);
    proof {
        lemma_opened_document_colours(bs);
    }
    let state = load(doc, save_to);
    proof {
        assert(state@.history.len() == 0);
        if state@.doc.boxes.len() > 0 {
            assert(valid_path(state@.doc.boxes, PathModel { ancestors: Seq::empty(), index: 0 }));
        }
    }
    Some(state)
}

} // verus!
