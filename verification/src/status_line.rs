//! The line under the diagram: the mode, the file, and how many boxes there are.
use vstd::prelude::*;
use crate::diagram::{BoxModel, Node, model, models, lemma_models_push};
use crate::state::{State, StateModel, ModeModel, Mode, DEFAULT_FILENAME};
use crate::text::{owned, push_str, push_char, push_decimal, decimal};
use crate::palette::{palette, palette_spec, BACKGROUND};

verus! {

/// How a segment of the status line is drawn.
#[derive(Debug, Default, Clone, Copy)]
pub struct Style {
    pub bold: bool,
    pub background: Option<(u8, u8, u8, u8)>,
    pub foreground: Option<(u8, u8, u8)>,
}

/// A run of text drawn in one style.
#[derive(Debug)]
pub struct Segment {
    pub text: String,
    pub style: Style,
}

/// The segments drawn from the left edge and those drawn up to the right edge.
#[derive(Debug)]
pub struct StatusLine {
    pub left: Vec<Segment>,
    pub right: Vec<Segment>,
}

impl View for Segment {
    type V = (Seq<char>, Style);

    open spec fn view(&self) -> (Seq<char>, Style) {
        (self.text@, self.style)
    }
}

pub open spec fn segments_view(v: Seq<Segment>) -> Seq<(Seq<char>, Style)> {
    v.map_values(|s: Segment| s@)
}

/// The block drawn after the file name while it is typed.
pub const CURSOR: char = '\u{2588}';

/// Opacity of the shade behind every segment but the mode.
pub const DIM_ALPHA: u8 = 0x40;

/// How many boxes a forest holds, at every depth.
pub open spec fn box_total(bs: Seq<BoxModel>) -> nat
    decreases bs,
{
    if bs.len() == 0 {
        0
    } else {
        box_total(bs.drop_last()) + tree_total(bs.last())
    }
}

/// How many boxes a box and everything under it make.
pub open spec fn tree_total(b: BoxModel) -> nat
    decreases b,
{
    1 + box_total(b.children)
}

proof fn lemma_total_push(bs: Seq<BoxModel>, b: BoxModel)
    ensures
        box_total(bs.push(b)) == box_total(bs) + tree_total(b),
{
    assert(bs.push(b).drop_last() =~= bs);
}

proof fn lemma_total_prefix(ns: Seq<Node>, i: int)
    requires
        0 <= i <= ns.len(),
    ensures
        box_total(models(ns.take(i))) <= box_total(models(ns)),
    decreases ns.len(),
{
    if i < ns.len() {
        let d = ns.drop_last();
        assert(ns.take(i) =~= d.take(i));
        lemma_total_prefix(d, i);
        assert(ns =~= d.push(ns.last()));
        lemma_models_push(d, ns.last());
        lemma_total_push(models(d), model(ns.last()));
    } else {
        assert(ns.take(i) =~= ns);
    }
}

/// How many boxes there are, at every depth.
pub fn count_boxes(nodes: &Vec<Node>) -> (r: usize)
    requires
        box_total(models(nodes@)) <= usize::MAX,
    ensures
        r == box_total(models(nodes@)),
    decreases nodes,
{
    let mut total: usize = 0;
    let mut i: usize = 0;
    while i < nodes.len()
        invariant
            i <= nodes.len(),
            box_total(models(nodes@)) <= usize::MAX,
            total == box_total(models(nodes@.take(i as int))),
        decreases nodes.len() - i,
    {
        proof {
            assert(decreases_to!(nodes => nodes@));
            assert(decreases_to!(nodes@ => nodes@[i as int]));
            let t = nodes@.take(i as int);
            assert(t.push(nodes@[i as int]) =~= nodes@.take(i + 1));
            lemma_models_push(t, nodes@[i as int]);
            lemma_total_push(models(t), model(nodes@[i as int]));
            lemma_total_prefix(nodes@, i + 1);
        }
        let below = count_boxes(&nodes[i].children);
        total = total + 1 + below;
        i = i + 1;
    }
    proof {
        assert(nodes@.take(i as int) =~= nodes@);
    }
    total
}

pub open spec fn dim_style() -> Style {
    Style { bold: false, background: Some((0u8, 0u8, 0u8, DIM_ALPHA)), foreground: None }
}

pub open spec fn mode_style() -> Style {
    let (r, g, b) = palette_spec(0).unwrap();
    Style { bold: true, background: Some((r, g, b, 0xFFu8)), foreground: palette_spec(BACKGROUND) }
}

pub open spec fn mode_text(m: ModeModel) -> Seq<char> {
    match m {
        ModeModel::Insert => " EDITING "@,
        _ => " COMMANDING "@,
    }
}

/// The file the diagram goes to, marked `[+]` when it has changed; while
/// the save prompt is open, the prompt and the name typed so far.
pub open spec fn file_text(s: StateModel) -> Seq<char> {
    match s.mode {
        ModeModel::SavePrompt(f) => "Save as: "@ + f + seq![CURSOR],
        _ => {
            let name = match s.save_to {
                Some(n) => n,
                None => DEFAULT_FILENAME@,
            };
            if s.dirty {
                name + "[+]"@
            } else {
                name
            }
        },
    }
}

pub open spec fn left_spec(s: StateModel) -> Seq<(Seq<char>, Style)> {
    seq![
        (mode_text(s.mode), mode_style()),
        (" \u{2502} "@, dim_style()),
        (file_text(s), dim_style()),
    ]
}

pub open spec fn right_spec(s: StateModel) -> Seq<(Seq<char>, Style)> {
    seq![
        (decimal(box_total(s.doc.boxes)) + " boxes"@, dim_style()),
        (" \u{2022} "@, dim_style()),
        ("dre"@, dim_style()),
    ]
}

/// The status line names the mode on the left, then the file (or the save
/// prompt and the name typed so far), and counts the boxes at every depth on
/// the right, before the editor's name.
pub proof fn law_status_line_texts(s: StateModel)
    ensures
        left_spec(s).len() == 3,
        left_spec(s)[0].0 == if s.mode == ModeModel::Insert {
            " EDITING "@
        } else {
            " COMMANDING "@
        },
        left_spec(s)[2].0 == file_text(s),
        s.mode matches ModeModel::SavePrompt(f) ==> left_spec(s)[2].0 == "Save as: "@ + f + seq![CURSOR],
        right_spec(s).len() == 3,
        right_spec(s)[0].0 == decimal(box_total(s.doc.boxes)) + " boxes"@,
        right_spec(s)[2].0 == "dre"@,
{
}

fn dim(text: String) -> (r: Segment)
    ensures
        r@ == (text@, dim_style()),
{
    Segment { text, style: Style { bold: false, background: Some((0, 0, 0, DIM_ALPHA)), foreground: None } }
}

fn file_segment_text(state: &State) -> (r: String)
    ensures
        r@ == file_text(state@),
{
    match &state.mode {
        Mode::SavePrompt { filename } => {
            let mut t = owned("Save as: ");
            push_str(&mut t, filename.as_str());
            push_char(&mut t, CURSOR);
            t
        },
        _ => {
            let mut t = match &state.save_to {
                Some(n) => n.clone(),
                None => owned(DEFAULT_FILENAME),
            };
            if state.dirty {
                push_str(&mut t, "[+]");
            }
            t
        },
    }
}

/// The status line for a state.
pub fn status_line(state: &State) -> (r: StatusLine)
    requires
        box_total(state@.doc.boxes) <= usize::MAX,
    ensures
        segments_view(r.left@) == left_spec(state@),
        segments_view(r.right@) == right_spec(state@),
{
    let mode_text = match &state.mode {
        Mode::Insert => " EDITING ",
        _ => " COMMANDING ",
    };
    let (r, g, b) = match palette(0) {
        Some(c) => c,
        None => (0, 0, 0),
    };
    let mode = Segment {
        text: owned(mode_text),
        style: Style { bold: true, background: Some((r, g, b, 0xFF)), foreground: palette(BACKGROUND) },
    };
    let filename = file_segment_text(state);
    let box_count = count_boxes(&state.doc.boxes);
    let mut count_text = String::new();
    push_decimal(&mut count_text, box_count as u64);
    push_str(&mut count_text, " boxes");
    let left = vec![mode, dim(owned(" \u{2502} ")), dim(filename)];
    let right = vec![dim(count_text), dim(owned(" \u{2022} ")), dim(owned("dre"))];
    proof {
        assert(Seq::<char>::empty() + decimal(box_count as nat) + " boxes"@ =~= decimal(
            box_count as nat,
        ) + " boxes"@);
        assert(segments_view(left@) =~= left_spec(state@));
        assert(segments_view(right@) =~= right_spec(state@));
    }
    StatusLine { left, right }
}

} // verus!
