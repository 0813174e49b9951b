//! Command mode: every key runs a command on the selected box.
use vstd::prelude::*;
use crate::diagram::{
    BoxModel, DocModel, Node, Path, PathModel, models, model, valid_path, valid_ancestors,
    node_at, siblings_at, replace_siblings, with_node, with_appended, blank_model, blank_box,
    replace_node, append, take_children, put_children, lemma_models, lemma_models_update,
    lemma_with_node_twice, lemma_with_node_valid, lemma_replace_keeps_ancestors,
    lemma_replace_twice, lemma_ancestors_prefix, lemma_ancestors_push, lemma_node_colour_ok,
    colours_ok, colour_ok, same_colour,
};
use crate::palette::{next_on_palette, next_on_palette_spec};
use crate::state::{
    State, StateModel, ModeModel, Mode, state_wf, snapshot, snapshot_spec, undo, undo_spec,
    add_child_box, add_child_spec, DEFAULT_FILENAME,
};
use crate::text::{chars_of, parse_i64, parse_i64_spec, push_char, owned};
use crate::keymap::{KeyBinding, binding, bindings_view, markdown, table_spec};

verus! {

/// A command of command mode.
#[derive(Clone, Copy, PartialEq, Eq, Debug, Structural)]
pub enum Command {
    Undo,
    NewBox,
    NewSibling,
    SelectParent,
    SelectChild,
    SelectNext,
    SelectPrevious,
    EditLabel,
    RenameLabel,
    CycleColour,
    CycleSiblingsColour,
    ToggleSiblingsFill,
    ToggleFill,
    ToggleRounded,
    Quit,
    ScrollBy(i64),
}

/// The command that a one-character key runs.
pub open spec fn key_command(c: char) -> Option<Command> {
    if c == 'u' {
        Some(Command::Undo)
    } else if c == 'b' {
        Some(Command::NewBox)
    } else if c == 's' {
        Some(Command::NewSibling)
    } else if c == 'h' {
        Some(Command::SelectParent)
    } else if c == 'l' {
        Some(Command::SelectChild)
    } else if c == 'j' {
        Some(Command::SelectNext)
    } else if c == 'k' {
        Some(Command::SelectPrevious)
    } else if c == 'i' {
        Some(Command::EditLabel)
    } else if c == 'I' {
        Some(Command::RenameLabel)
    } else if c == 'c' {
        Some(Command::CycleColour)
    } else if c == 'C' {
        Some(Command::CycleSiblingsColour)
    } else if c == 'F' {
        Some(Command::ToggleSiblingsFill)
    } else if c == 'f' {
        Some(Command::ToggleFill)
    } else if c == 'r' {
        Some(Command::ToggleRounded)
    } else if c == 'q' {
        Some(Command::Quit)
    } else {
        None
    }
}

/// The prefix of the keys that the editor sends itself to scroll.
pub open spec fn scroll_prefix() -> Seq<char> {
    seq!['\x1b', 'S', 'C', 'R', 'O', 'L', 'L']
}

/// The command a key runs: a scroll by the signed number that follows the
/// scroll prefix, or the command of a one-character key.
pub open spec fn parse_spec(k: Seq<char>) -> Option<Command> {
    if k.len() >= 7 && k.take(7) == scroll_prefix() {
        match parse_i64_spec(k.skip(7)) {
            Some(d) => Some(Command::ScrollBy(d)),
            None => None,
        }
    } else if k.len() == 1 {
        key_command(k[0])
    } else {
        None
    }
}

fn has_scroll_prefix(k: &Vec<char>) -> (r: bool)
    ensures
        r == (k@.len() >= 7 && k@.take(7) == scroll_prefix()),
{
    let r = k.len() >= 7 && k[0] == '\x1b' && k[1] == 'S' && k[2] == 'C' && k[3] == 'R' && k[4]
        == 'O' && k[5] == 'L' && k[6] == 'L';
    proof {
        if r {
            assert(k@.take(7) =~= scroll_prefix());
        }
        if k@.len() >= 7 && k@.take(7) == scroll_prefix() {
            assert(k@.take(7)[0] == k@[0]);
            assert(k@.take(7)[1] == k@[1]);
            assert(k@.take(7)[2] == k@[2]);
            assert(k@.take(7)[3] == k@[3]);
            assert(k@.take(7)[4] == k@[4]);
            assert(k@.take(7)[5] == k@[5]);
            assert(k@.take(7)[6] == k@[6]);
        }
    }
    r
}

/// The command of a key given as characters.
pub fn parse_chars(k: &Vec<char>) -> (r: Option<Command>)
    ensures
        r == parse_spec(k@),
{
    if has_scroll_prefix(k) {
        match parse_i64(k, 7) {
            Some(d) => Some(Command::ScrollBy(d)),
            None => None,
        }
    } else if k.len() == 1 {
        match k[0] {
            'u' => Some(Command::Undo),
            'b' => Some(Command::NewBox),
            's' => Some(Command::NewSibling),
            'h' => Some(Command::SelectParent),
            'l' => Some(Command::SelectChild),
            'j' => Some(Command::SelectNext),
            'k' => Some(Command::SelectPrevious),
            'i' => Some(Command::EditLabel),
            'I' => Some(Command::RenameLabel),
            'c' => Some(Command::CycleColour),
            'C' => Some(Command::CycleSiblingsColour),
            'F' => Some(Command::ToggleSiblingsFill),
            'f' => Some(Command::ToggleFill),
            'r' => Some(Command::ToggleRounded),
            'q' => Some(Command::Quit),
            _ => None,
        }
    } else {
        None
    }
}

/// The command that a key runs in command mode, if any.
pub fn parse(key: &str) -> (r: Option<Command>)
    ensures
        r == parse_spec(key@),
{
    parse_chars(&chars_of(key))
}

pub open spec fn is_undoable_spec(c: Command) -> bool {
    match c {
        Command::NewBox | Command::NewSibling | Command::CycleColour | Command::ToggleFill
        | Command::ToggleRounded | Command::CycleSiblingsColour | Command::ToggleSiblingsFill
        | Command::RenameLabel => true,
        _ => false,
    }
}

/// Whether a command records the document for undo before it runs.
pub fn is_undoable(command: Command) -> (r: bool)
    ensures
        r == is_undoable_spec(command),
{
    match command {
        Command::NewBox | Command::NewSibling | Command::CycleColour | Command::ToggleFill
        | Command::ToggleRounded | Command::CycleSiblingsColour | Command::ToggleSiblingsFill
        | Command::RenameLabel => true,
        _ => false,
    }
}

pub open spec fn min_depth_spec(c: Command) -> nat {
    match c {
        Command::Undo | Command::NewBox | Command::Quit | Command::ScrollBy(_) => 0,
        Command::SelectParent | Command::CycleSiblingsColour | Command::ToggleSiblingsFill => 2,
        _ => 1,
    }
}

/// How deep the selection must be for a command to run: 0 for none, 1 for
/// a selected box, 2 for a selected box that has a parent.
pub fn min_depth(command: Command) -> (r: usize)
    ensures
        r == min_depth_spec(command),
{
    match command {
        Command::Undo | Command::NewBox | Command::Quit | Command::ScrollBy(_) => 0,
        Command::SelectParent | Command::CycleSiblingsColour | Command::ToggleSiblingsFill => 2,
        _ => 1,
    }
}

pub open spec fn depth_of(sel: Option<PathModel>) -> nat {
    match sel {
        None => 0,
        Some(p) => 1 + p.ancestors.len(),
    }
}

pub open spec fn reselect(s: StateModel, sel: Option<PathModel>) -> StateModel {
    StateModel { doc: DocModel { selected: sel, ..s.doc }, ..s }
}

pub open spec fn with_boxes(s: StateModel, boxes: Seq<BoxModel>, sel: Option<PathModel>) -> StateModel {
    StateModel { doc: DocModel { boxes, selected: sel }, ..s }
}

/// `count` steps to the parent, stopping at the top level.
pub open spec fn parent_n(p: PathModel, count: usize) -> PathModel {
    let len = p.ancestors.len();
    if count == 0 || len == 0 {
        p
    } else {
        let k = if count < len {
            count as int
        } else {
            len as int
        };
        PathModel { ancestors: p.ancestors.take(len - k), index: p.ancestors[len - k] }
    }
}

/// `count` steps to the next sibling, stopping at the last.
pub open spec fn next_n(boxes: Seq<BoxModel>, p: PathModel, count: usize) -> PathModel {
    let n = siblings_at(boxes, p.ancestors).len();
    if count >= n - 1 - p.index {
        PathModel { index: (n - 1) as usize, ..p }
    } else {
        PathModel { index: (p.index + count) as usize, ..p }
    }
}

/// `count` steps to the previous sibling, stopping at the first.
pub open spec fn previous_n(p: PathModel, count: usize) -> PathModel {
    if count >= p.index {
        PathModel { index: 0, ..p }
    } else {
        PathModel { index: (p.index - count) as usize, ..p }
    }
}

/// The first child of the box, or the box itself when it has none.
pub open spec fn child_of(boxes: Seq<BoxModel>, p: PathModel) -> PathModel {
    if node_at(boxes, p).children.len() > 0 {
        PathModel { ancestors: p.ancestors.push(p.index), index: 0 }
    } else {
        p
    }
}

pub open spec fn colour_row_spec(sibs: Seq<BoxModel>) -> Seq<BoxModel> {
    let first = sibs[0].colour;
    let uniform = forall|j: int| 0 <= j < sibs.len() ==> #[trigger] sibs[j].colour == first;
    let c = if uniform {
        next_on_palette_spec(first)
    } else {
        Some(0u8)
    };
    Seq::new(sibs.len(), |j: int| BoxModel { colour: c, ..sibs[j] })
}

pub open spec fn fill_row_spec(sibs: Seq<BoxModel>) -> Seq<BoxModel> {
    if forall|j: int| 0 <= j < sibs.len() ==> (#[trigger] sibs[j].colour) is None {
        sibs
    } else {
        let all = forall|j: int| 0 <= j < sibs.len() ==> #[trigger] sibs[j].filled;
        Seq::new(sibs.len(), |j: int| BoxModel { filled: !all, ..sibs[j] })
    }
}

/// Colouring a row gives every box of it one colour and changes nothing
/// else: the next palette colour after the one they all share, or the
/// first palette colour when they do not all share one.
pub proof fn law_colour_row_gives_one_colour(sibs: Seq<BoxModel>)
    requires
        sibs.len() > 0,
    ensures
        colour_row_spec(sibs).len() == sibs.len(),
        forall|j: int| 0 <= j < sibs.len() ==> (#[trigger] colour_row_spec(sibs)[j]) == (BoxModel {
            colour: colour_row_spec(sibs)[0].colour,
            ..sibs[j]
        }),
        (forall|k: int| 0 <= k < sibs.len() ==> (#[trigger] sibs[k]).colour == sibs[0].colour)
            ==> colour_row_spec(sibs)[0].colour == next_on_palette_spec(sibs[0].colour),
        (exists|k: int| 0 <= k < sibs.len() && (#[trigger] sibs[k]).colour != sibs[0].colour)
            ==> colour_row_spec(sibs)[0].colour == Some(0u8),
{
}

/// Filling a row: when some box of it has a colour, every box ends up
/// filled unless every one already was, and then every one ends up empty; a
/// row with no colour at all stays as it is. Only the fills change.
pub proof fn law_fill_row_fills_unless_all_filled(sibs: Seq<BoxModel>)
    ensures
        fill_row_spec(sibs).len() == sibs.len(),
        forall|j: int| 0 <= j < sibs.len() ==> (#[trigger] fill_row_spec(sibs)[j]) == (BoxModel {
            filled: fill_row_spec(sibs)[j].filled,
            ..sibs[j]
        }),
        (exists|k: int| 0 <= k < sibs.len() && (#[trigger] sibs[k].colour) is Some) ==> {
            &&& (exists|k: int| 0 <= k < sibs.len() && !(#[trigger] sibs[k]).filled) ==> forall|j: int|
                0 <= j < sibs.len() ==> (#[trigger] fill_row_spec(sibs)[j]).filled
            &&& (forall|k: int| 0 <= k < sibs.len() ==> (#[trigger] sibs[k]).filled) ==> forall|j: int|
                0 <= j < sibs.len() ==> !(#[trigger] fill_row_spec(sibs)[j]).filled
        },
        (forall|k: int| 0 <= k < sibs.len() ==> (#[trigger] sibs[k].colour) is None) ==> fill_row_spec(sibs)
            == sibs,
{
}

pub open spec fn insert_with_label(s: StateModel, p: PathModel, label: Seq<char>) -> StateModel {
    let n = node_at(s.doc.boxes, p);
    StateModel {
        doc: DocModel {
            boxes: with_node(s.doc.boxes, p, BoxModel { label, ..n }),
            selected: Some(p),
        },
        mode: ModeModel::Insert,
        ..s
    }
}

pub open spec fn new_sibling_spec(s: StateModel, p: PathModel) -> StateModel {
    StateModel {
        doc: DocModel {
            boxes: with_appended(s.doc.boxes, p.ancestors, blank_model()),
            selected: Some(
                PathModel {
                    ancestors: p.ancestors,
                    index: siblings_at(s.doc.boxes, p.ancestors).len() as usize,
                },
            ),
        },
        mode: ModeModel::Insert,
        ..s
    }
}

pub open spec fn quit_spec(s: StateModel) -> StateModel {
    if s.new_file && s.doc.boxes.len() == 0 {
        StateModel { save_to: None, running: false, ..s }
    } else if s.save_to is Some {
        StateModel { running: false, ..s }
    } else {
        StateModel { mode: ModeModel::SavePrompt(DEFAULT_FILENAME@), ..s }
    }
}

pub open spec fn on_node(s: StateModel, p: PathModel, n: BoxModel) -> StateModel {
    with_boxes(s, with_node(s.doc.boxes, p, n), Some(p))
}

pub open spec fn on_row(s: StateModel, p: PathModel, row: Seq<BoxModel>) -> StateModel {
    with_boxes(s, replace_siblings(s.doc.boxes, p.ancestors, row), Some(p))
}

/// What a command does once the depth check has passed, the snapshot is
/// taken, and the selection `sel` has been taken out of the document.
pub open spec fn apply_spec(s: StateModel, c: Command, sel: Option<PathModel>, count: usize) -> StateModel {
    let boxes = s.doc.boxes;
    match c {
        Command::Undo => undo_spec(reselect(s, sel)),
        Command::NewBox => add_child_spec(s, sel),
        Command::Quit => quit_spec(reselect(s, sel)),
        Command::ScrollBy(d) => reselect(StateModel { scroll_x: (s.scroll_x + d) as i64, ..s }, sel),
        _ => match sel {
            None => s,
            Some(p) => {
                let n = node_at(boxes, p);
                let sibs = siblings_at(boxes, p.ancestors);
                match c {
                    Command::NewSibling => new_sibling_spec(s, p),
                    Command::SelectParent => reselect(s, Some(parent_n(p, count))),
                    Command::SelectChild => reselect(s, Some(child_of(boxes, p))),
                    Command::SelectNext => reselect(s, Some(next_n(boxes, p, count))),
                    Command::SelectPrevious => reselect(s, Some(previous_n(p, count))),
                    Command::EditLabel => insert_with_label(s, p, n.label.push(' ')),
                    Command::RenameLabel => insert_with_label(s, p, seq![' ']),
                    Command::CycleColour => on_node(
                        s,
                        p,
                        BoxModel { colour: next_on_palette_spec(n.colour), ..n },
                    ),
                    Command::CycleSiblingsColour => on_row(s, p, colour_row_spec(sibs)),
                    Command::ToggleSiblingsFill => on_row(s, p, fill_row_spec(sibs)),
                    Command::ToggleFill => if n.colour is None {
                        reselect(s, Some(p))
                    } else {
                        on_node(s, p, BoxModel { filled: !n.filled, ..n })
                    },
                    Command::ToggleRounded => on_node(s, p, BoxModel { rounded: !n.rounded, ..n }),
                    _ => s,
                }
            },
        },
    }
}

/// What a command does in command mode: it uses up the pending count (one
/// when there is none), does nothing when the selection is not deep enough,
/// records the document first when it is undoable, and then runs.
pub open spec fn reduce_spec(s: StateModel, c: Command) -> StateModel {
    let count: usize = match s.pending_count {
        Some(n) => n,
        None => 1,
    };
    let s1 = StateModel { pending_count: None, ..s };
    if depth_of(s1.doc.selected) < min_depth_spec(c) {
        s1
    } else {
        let s2 = if is_undoable_spec(c) {
            snapshot_spec(s1)
        } else {
            s1
        };
        apply_spec(reselect(s2, None), c, s2.doc.selected, count)
    }
}

/// A scroll command does not move the view past what an `i64` holds.
pub open spec fn scroll_fits(s: StateModel, c: Command) -> bool {
    match c {
        Command::ScrollBy(d) => i64::MIN <= s.scroll_x + d <= i64::MAX,
        _ => true,
    }
}

fn select_parent(path: Path, count: usize) -> (r: Path)
    ensures
        r@ == parent_n(path@, count),
{
    let len = path.ancestors.len();
    if count == 0 || len == 0 {
        path
    } else {
        let k = if count < len {
            count
        } else {
            len
        };
        let index = path.ancestors[len - k];
        let mut ancestors = path.ancestors;
        ancestors.truncate(len - k);
        let r = Path { ancestors, index };
        proof {
            assert(r@.ancestors =~= path@.ancestors.take(len - k));
        }
        r
    }
}

fn select_next(boxes: &Vec<Node>, path: Path, count: usize) -> (r: Path)
    requires
        valid_path(models(boxes@), path@),
    ensures
        r@ == next_n(models(boxes@), path@, count),
{
    let sibs = crate::diagram::children_at(boxes, path.ancestors.as_slice());
    proof {
        lemma_models(sibs@);
    }
    let n = sibs.len();
    let mut path = path;
    if count >= n - 1 - path.index {
        path.index = n - 1;
    } else {
        path.index = path.index + count;
    }
    path
}

fn select_previous(path: Path, count: usize) -> (r: Path)
    ensures
        r@ == previous_n(path@, count),
{
    let mut path = path;
    if count >= path.index {
        path.index = 0;
    } else {
        path.index = path.index - count;
    }
    path
}


/// Sets the colour of every box of a list to the next palette colour when
/// they share one, or to the first palette colour when they differ.
pub fn colour_row(sibs: &mut Vec<Node>)
    requires
        old(sibs).len() > 0,
        colours_ok(models(old(sibs)@)),
    ensures
        models(final(sibs)@) == colour_row_spec(models(old(sibs)@)),
{
    let ghost before = sibs@;
    proof {
        lemma_models(before);
        crate::diagram::lemma_colours_ok(models(before));
    }
    let first = sibs[0].colour;
    let mut uniform = true;
    let mut j: usize = 0;
    while j < sibs.len()
        invariant
            j <= sibs.len(),
            first == sibs@[0].colour,
            uniform == (forall|k: int| 0 <= k < j ==> #[trigger] sibs@[k].colour == first),
        decreases sibs.len() - j,
    {
        if !same_colour(sibs[j].colour, first) {
            uniform = false;
        }
        j = j + 1;
    }
    proof {
        assert(crate::diagram::box_colours_ok(models(before)[0]));
        assert(models(before)[0].colour == first);
    }
    let c = if uniform {
        next_on_palette(first)
    } else {
        Some(0)
    };
    let mut j: usize = 0;
    while j < sibs.len()
        invariant
            j <= sibs.len(),
            sibs.len() == before.len(),
            forall|k: int| 0 <= k < j ==> #[trigger] sibs@[k] == (Node { colour: c, ..before[k] }),
            forall|k: int| j <= k < sibs.len() ==> #[trigger] sibs@[k] == before[k],
        decreases sibs.len() - j,
    {
        let mut n = blank_box();
        sibs.set_and_swap(j, &mut n);
        n.colour = c;
        sibs.set(j, n);
        j = j + 1;
    }
    proof {
        lemma_models(sibs@);
        let spec_row = colour_row_spec(models(before));
        assert(uniform == (forall|k: int| 0 <= k < models(before).len() ==> #[trigger] models(before)[k].colour == models(before)[0].colour)) by {
            if uniform {
                assert forall|k: int| 0 <= k < models(before).len() implies #[trigger] models(before)[k].colour == models(before)[0].colour by {
                    assert(before[k].colour == first);
                }
            } else {
                let k = choose|k: int| 0 <= k < before.len() && #[trigger] before[k].colour != first;
                assert(models(before)[k].colour != models(before)[0].colour);
            }
        }
        assert(models(sibs@) =~= spec_row);
    }
}


/// Fills every box of a list, or empties every box when all are filled;
/// a list of plain boxes stays as it is.
pub fn fill_row(sibs: &mut Vec<Node>)
    ensures
        models(final(sibs)@) == fill_row_spec(models(old(sibs)@)),
{
    let ghost before = sibs@;
    proof {
        lemma_models(before);
    }
    let mut all_plain = true;
    let mut all_filled = true;
    let mut j: usize = 0;
    while j < sibs.len()
        invariant
            j <= sibs.len(),
            sibs@ == before,
            all_plain == (forall|k: int| 0 <= k < j ==> (#[trigger] sibs@[k]).colour is None),
            all_filled == (forall|k: int| 0 <= k < j ==> (#[trigger] sibs@[k]).filled),
        decreases sibs.len() - j,
    {
        if sibs[j].colour.is_some() {
            all_plain = false;
        }
        if !sibs[j].filled {
            all_filled = false;
        }
        j = j + 1;
    }
    proof {
        assert(all_plain == (forall|k: int| 0 <= k < models(before).len() ==> (#[trigger] models(before)[k]).colour is None)) by {
            if !all_plain {
                let k = choose|k: int| 0 <= k < before.len() && !((#[trigger] before[k]).colour is None);
                assert(!(models(before)[k].colour is None));
            }
        }
        assert(all_filled == (forall|k: int| 0 <= k < models(before).len() ==> (#[trigger] models(before)[k]).filled)) by {
            if !all_filled {
                let k = choose|k: int| 0 <= k < before.len() && !(#[trigger] before[k]).filled;
                assert(!models(before)[k].filled);
            }
        }
    }
    if all_plain {
        return;
    }
    let mut j: usize = 0;
    while j < sibs.len()
        invariant
            j <= sibs.len(),
            sibs.len() == before.len(),
            forall|k: int| 0 <= k < j ==> #[trigger] sibs@[k] == (Node { filled: !all_filled, ..before[k] }),
            forall|k: int| j <= k < sibs.len() ==> #[trigger] sibs@[k] == before[k],
        decreases sibs.len() - j,
    {
        let mut n = blank_box();
        sibs.set_and_swap(j, &mut n);
        n.filled = !all_filled;
        sibs.set(j, n);
        j = j + 1;
    }
    proof {
        lemma_models(sibs@);
        assert(models(sibs@) =~= fill_row_spec(models(before)));
    }
}

/// What a box becomes under a command that changes only that box.
pub enum NodeEdit {
    AppendPad,
    ClearToPad,
    CycleColour,
    ToggleFill,
    ToggleRounded,
    SetColour(u8),
}

pub open spec fn node_edit_spec(n: BoxModel, e: NodeEdit) -> BoxModel {
    match e {
        NodeEdit::AppendPad => BoxModel { label: n.label.push(' '), ..n },
        NodeEdit::ClearToPad => BoxModel { label: seq![' '], ..n },
        NodeEdit::CycleColour => BoxModel { colour: next_on_palette_spec(n.colour), ..n },
        NodeEdit::ToggleFill => BoxModel { filled: !n.filled, ..n },
        NodeEdit::ToggleRounded => BoxModel { rounded: !n.rounded, ..n },
        NodeEdit::SetColour(c) => BoxModel { colour: Some(c), ..n },
    }
}

/// Changes the box that a path addresses.
pub fn edit_node(boxes: &mut Vec<Node>, path: &Path, e: NodeEdit)
    requires
        valid_path(models(old(boxes)@), path@),
        colour_ok(node_at(models(old(boxes)@), path@).colour),
    ensures
        models(final(boxes)@) == with_node(
            models(old(boxes)@),
            path@,
            node_edit_spec(node_at(models(old(boxes)@), path@), e),
        ),
{
    let ghost before = models(boxes@);
    let mut n = replace_node(boxes, path, blank_box());
    proof {
        lemma_with_node_valid(before, path@, blank_model(), path@);
    }
    let ghost taken = model(n);
    match e {
        NodeEdit::AppendPad => {
            push_char(&mut n.label, ' ');
        },
        NodeEdit::ClearToPad => {
            n.label = owned(" ");
            proof {
                reveal_strlit(" ");
            }
        },
        NodeEdit::CycleColour => {
            n.colour = next_on_palette(n.colour);
        },
        NodeEdit::ToggleFill => {
            n.filled = !n.filled;
        },
        NodeEdit::ToggleRounded => {
            n.rounded = !n.rounded;
        },
        NodeEdit::SetColour(c) => {
            n.colour = Some(c);
        },
    }
    proof {
        assert(model(n) =~= node_edit_spec(taken, e));
    }
    replace_node(boxes, path, n);
    proof {
        lemma_with_node_twice(before, path@, blank_model(), model(n));
    }
}

fn shallower(selected: &Option<Path>, depth: usize) -> (r: bool)
    ensures
        r == (depth_of(crate::diagram::path_opt(*selected)) < depth),
{
    match selected {
        None => 0 < depth,
        Some(p) => depth > 0 && p.ancestors.len() < depth - 1,
    }
}

/// Runs a command in command mode.
pub fn reduce(state: State, command: Command) -> (r: State)
    requires
        state_wf(state@),
        scroll_fits(state@, command),
    ensures
        r@ == reduce_spec(state@, command),
{
    let ghost s0 = state@;
    let mut state = state;
    let count: usize = match state.pending_count.take() {
        Some(n) => n,
        None => 1,
    };
    let ghost s1 = state@;
    proof {
        assert(s1 =~= StateModel { pending_count: None, ..s0 });
    }
    if shallower(&state.doc.selected, min_depth(command)) {
        return state;
    }
    let mut state = if is_undoable(command) {
        snapshot(state)
    } else {
        state
    };
    let ghost s2 = state@;
    let selected = state.doc.selected.take();
    let ghost s3 = state@;
    proof {
        assert(s3 =~= reselect(s2, None));
        assert(s2.doc == s0.doc);
    }
    match command {
        Command::Undo => {
            state.doc.selected = selected;
            proof {
                assert(state@ =~= reselect(s3, crate::diagram::path_opt(selected)));
            }
            undo(state)
        },
        Command::NewBox => add_child_box(state, selected),
        Command::Quit => {
            state.doc.selected = selected;
            let ghost s4 = state@;
            proof {
                assert(s4 =~= reselect(s3, crate::diagram::path_opt(selected)));
            }
            let nothing = state.doc.boxes.len() == 0;
            proof {
                lemma_models(state.doc.boxes@);
            }
            if state.new_file && nothing {
                state.save_to = None;
                state.running = false;
            } else if state.save_to.is_some() {
                state.running = false;
            } else {
                state.mode = Mode::SavePrompt { filename: owned(DEFAULT_FILENAME) };
            }
            proof {
                assert(state@ =~= quit_spec(s4));
            }
            state
        },
        Command::ScrollBy(delta) => {
            state.scroll_x = state.scroll_x + delta;
            state.doc.selected = selected;
            proof {
                assert(state@ =~= reselect(StateModel { scroll_x: (s3.scroll_x + delta) as i64, ..s3 }, crate::diagram::path_opt(selected)));
            }
            state
        },
        _ => {
            match selected {
                None => state,
                Some(path) => run_on_selection(state, command, path, count),
            }
        },
    }
}

fn run_on_selection(state: State, command: Command, path: Path, count: usize) -> (r: State)
    requires
        crate::state::doc_wf(DocModel { selected: Some(path@), ..state@.doc }),
        !(command is Undo || command is NewBox || command is Quit || command is ScrollBy),
    ensures
        r@ == apply_spec(state@, command, Some(path@), count),
{
    let ghost s = state@;
    let ghost p = path@;
    let mut state = state;
    proof {
        lemma_node_colour_ok(s.doc.boxes, p);
    }
    match command {
        Command::NewSibling => {
            let mut sibs = take_children(&mut state.doc.boxes, &path.ancestors);
            proof {
                lemma_models(sibs@);
                lemma_replace_keeps_ancestors(s.doc.boxes, p.ancestors, Seq::empty());
            }
            let index = append(&mut sibs, blank_box());
            put_children(&mut state.doc.boxes, &path.ancestors, sibs);
            proof {
                lemma_replace_twice(s.doc.boxes, p.ancestors, Seq::empty(), models(sibs@));
            }
            state.doc.selected = Some(Path { ancestors: path.ancestors, index });
            state.mode = Mode::Insert;
            proof {
                assert(state@ =~= new_sibling_spec(s, p));
            }
            state
        },
        Command::SelectParent => {
            state.doc.selected = Some(select_parent(path, count));
            proof {
                assert(state@ =~= apply_spec(s, command, Some(p), count));
            }
            state
        },
        Command::SelectChild => {
            let target = crate::diagram::at(&state.doc.boxes, &path);
            proof {
                lemma_models(target.children@);
            }
            let has_children = target.children.len() > 0;
            let mut path = path;
            if has_children {
                path.ancestors.push(path.index);
                path.index = 0;
            }
            state.doc.selected = Some(path);
            proof {
                assert(state@ =~= apply_spec(s, command, Some(p), count));
            }
            state
        },
        Command::SelectNext => {
            let next = select_next(&state.doc.boxes, path, count);
            state.doc.selected = Some(next);
            proof {
                assert(state@ =~= apply_spec(s, command, Some(p), count));
            }
            state
        },
        Command::SelectPrevious => {
            state.doc.selected = Some(select_previous(path, count));
            proof {
                assert(state@ =~= apply_spec(s, command, Some(p), count));
            }
            state
        },
        Command::EditLabel | Command::RenameLabel => {
            let edit = if command == Command::EditLabel {
                NodeEdit::AppendPad
            } else {
                NodeEdit::ClearToPad
            };
            edit_node(&mut state.doc.boxes, &path, edit);
            state.doc.selected = Some(path);
            state.mode = Mode::Insert;
            proof {
                assert(state@ =~= apply_spec(s, command, Some(p), count));
            }
            state
        },
        Command::CycleColour | Command::ToggleRounded => {
            let edit = if command == Command::CycleColour {
                NodeEdit::CycleColour
            } else {
                NodeEdit::ToggleRounded
            };
            edit_node(&mut state.doc.boxes, &path, edit);
            state.doc.selected = Some(path);
            proof {
                assert(state@ =~= apply_spec(s, command, Some(p), count));
            }
            state
        },
        Command::ToggleFill => {
            let plain = crate::diagram::at(&state.doc.boxes, &path).colour.is_none();
            if !plain {
                edit_node(&mut state.doc.boxes, &path, NodeEdit::ToggleFill);
            }
            state.doc.selected = Some(path);
            proof {
                assert(state@ =~= apply_spec(s, command, Some(p), count));
            }
            state
        },
        _ => {
            let mut sibs = take_children(&mut state.doc.boxes, &path.ancestors);
            proof {
                lemma_models(sibs@);
                lemma_replace_keeps_ancestors(s.doc.boxes, p.ancestors, Seq::empty());
            }
            if command == Command::CycleSiblingsColour {
                colour_row(&mut sibs);
            } else {
                fill_row(&mut sibs);
            }
            put_children(&mut state.doc.boxes, &path.ancestors, sibs);
            proof {
                lemma_replace_twice(s.doc.boxes, p.ancestors, Seq::empty(), models(sibs@));
            }
            state.doc.selected = Some(path);
            proof {
                assert(state@ =~= apply_spec(s, command, Some(p), count));
            }
            state
        },
    }
}

/// The keys of command mode, one per command, in the order the README
/// lists them.
pub open spec fn command_keymap_spec() -> Seq<(Seq<Seq<char>>, Command, Seq<char>)> {
    seq![
        (seq!["u"@], Command::Undo, "Undo the last change"@),
        (seq!["b"@], Command::NewBox, "Add a child box"@),
        (seq!["s"@], Command::NewSibling, "Add a sibling box"@),
        (seq!["h"@], Command::SelectParent, "Select the parent box"@),
        (seq!["l"@], Command::SelectChild, "Select the first child box"@),
        (seq!["j"@], Command::SelectNext, "Select the next sibling"@),
        (seq!["k"@], Command::SelectPrevious, "Select the previous sibling"@),
        (seq!["i"@], Command::EditLabel, "Edit the selected box's label"@),
        (seq!["I"@], Command::RenameLabel, "Rename the selected box's label"@),
        (seq!["c"@], Command::CycleColour, "Cycle the box's colour"@),
        (seq!["C"@], Command::CycleSiblingsColour, "Cycle the colour of every sibling"@),
        (seq!["f"@], Command::ToggleFill, "Toggle the box's fill"@),
        (seq!["F"@], Command::ToggleSiblingsFill, "Toggle the fill of every sibling"@),
        (seq!["r"@], Command::ToggleRounded, "Toggle rounded corners"@),
        (seq!["q"@], Command::Quit, "Save and quit (or choose where to save)"@),
    ]
}

/// The keys of command mode and what each does.
pub fn command_keymap() -> (r: Vec<KeyBinding<Command>>)
    ensures
        bindings_view(r@) == command_keymap_spec(),
{
    let mut r: Vec<KeyBinding<Command>> = Vec::new();
    r.push(binding("u", Command::Undo, "Undo the last change"));
    r.push(binding("b", Command::NewBox, "Add a child box"));
    r.push(binding("s", Command::NewSibling, "Add a sibling box"));
    r.push(binding("h", Command::SelectParent, "Select the parent box"));
    r.push(binding("l", Command::SelectChild, "Select the first child box"));
    r.push(binding("j", Command::SelectNext, "Select the next sibling"));
    r.push(binding("k", Command::SelectPrevious, "Select the previous sibling"));
    r.push(binding("i", Command::EditLabel, "Edit the selected box's label"));
    r.push(binding("I", Command::RenameLabel, "Rename the selected box's label"));
    r.push(binding("c", Command::CycleColour, "Cycle the box's colour"));
    r.push(binding("C", Command::CycleSiblingsColour, "Cycle the colour of every sibling"));
    r.push(binding("f", Command::ToggleFill, "Toggle the box's fill"));
    r.push(binding("F", Command::ToggleSiblingsFill, "Toggle the fill of every sibling"));
    r.push(binding("r", Command::ToggleRounded, "Toggle rounded corners"));
    r.push(binding("q", Command::Quit, "Save and quit (or choose where to save)"));
    proof {
        assert(bindings_view(r@) =~= command_keymap_spec());
    }
    r
}

/// The table of command mode's keys, as the README shows it.
pub fn format_keymap_markdown() -> (r: String)
    ensures
        r@ == table_spec(command_keymap_spec()),
{
    markdown(&command_keymap())
}

/// Every key of the keymap runs its command, and no two bindings share a key.
pub proof fn law_keymap_agrees_with_parse()
    ensures
        forall|i: int, j: int|
            0 <= i < command_keymap_spec().len() && 0 <= j < command_keymap_spec()[i].0.len()
                ==> parse_spec(#[trigger] command_keymap_spec()[i].0[j]) == Some(command_keymap_spec()[i].1),
        forall|i: int, j: int|
            0 <= i < j < command_keymap_spec().len() ==> #[trigger] command_keymap_spec()[i].0[0]
                != #[trigger] command_keymap_spec()[j].0[0],
{
    reveal_strlit("u");
    reveal_strlit("b");
    reveal_strlit("s");
    reveal_strlit("h");
    reveal_strlit("l");
    reveal_strlit("j");
    reveal_strlit("k");
    reveal_strlit("i");
    reveal_strlit("I");
    reveal_strlit("c");
    reveal_strlit("C");
    reveal_strlit("f");
    reveal_strlit("F");
    reveal_strlit("r");
    reveal_strlit("q");
    let m = command_keymap_spec();
    assert forall|i: int, j: int|
        0 <= i < m.len() && 0 <= j < m[i].0.len() implies parse_spec(#[trigger] m[i].0[j]) == Some(m[i].1) by {
        assert(m[i].0.len() == 1);
        assert(m[i].0[0].len() == 1);
    }
}

} // verus!
