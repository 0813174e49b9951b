//! The editor's state and what every key does to it.
use vstd::prelude::*;
use crate::diagram::{
    BoxModel, DocModel, Document, Node, Path, PathModel, models, model, path_opt, copy_path_opt,
    colours_ok, valid_path, node_at, with_node, blank_model, blank_box, replace_node, append,
    lemma_models, lemma_with_node_twice, lemma_with_node_valid, same_document,
};
use crate::text::{owned, chars_of, push_decimal, decimal};
use crate::command_mode;
use crate::insert_mode;
use crate::save_prompt_mode;
use crate::palette::{palette, BACKGROUND, palette_spec};

verus! {

/// What a new box's label starts as, and what follows the text while it is typed.
pub const PAD: &'static str = " ";

/// Where a diagram without a file of its own is offered to be saved.
pub const DEFAULT_FILENAME: &'static str = "diagram.dre";

/// The key that quits without saving (Ctrl-C).
pub const INTERRUPT: &'static str = "\x03";

/// What the keys do: run commands, type a label, or type a file name.
#[derive(Debug, PartialEq, Default)]
pub enum Mode {
    #[default]
    Command,
    Insert,
    SavePrompt { filename: String },
}

pub enum ModeModel {
    Command,
    Insert,
    SavePrompt(Seq<char>),
}

impl View for Mode {
    type V = ModeModel;

    open spec fn view(&self) -> ModeModel {
        match self {
            Mode::Command => ModeModel::Command,
            Mode::Insert => ModeModel::Insert,
            Mode::SavePrompt { filename } => ModeModel::SavePrompt(filename@),
        }
    }
}

impl Clone for Mode {
    fn clone(&self) -> (r: Self)
        ensures
            r@ == self@,
    {
        match self {
            Mode::Command => Mode::Command,
            Mode::Insert => Mode::Insert,
            Mode::SavePrompt { filename } => Mode::SavePrompt { filename: filename.clone() },
        }
    }
}

/// Everything the editor knows between two keys.
#[derive(Debug)]
pub struct State {
    pub doc: Document,
    pub last_selected: Option<Path>,
    pub history: Vec<Document>,
    pub mode: Mode,
    pub running: bool,
    pub save_to: Option<String>,
    pub new_file: bool,
    pub pending_count: Option<usize>,
    pub scroll_x: i64,
    pub dirty: bool,
    pub colour_overlay: bool,
}

#[verifier::ext_equal]
pub struct StateModel {
    pub doc: DocModel,
    pub last_selected: Option<PathModel>,
    pub history: Seq<DocModel>,
    pub mode: ModeModel,
    pub running: bool,
    pub save_to: Option<Seq<char>>,
    pub new_file: bool,
    pub pending_count: Option<usize>,
    pub scroll_x: i64,
    pub dirty: bool,
    pub colour_overlay: bool,
}

pub open spec fn docs_view(h: Seq<Document>) -> Seq<DocModel> {
    h.map_values(|d: Document| d@)
}

pub open spec fn str_opt(s: Option<String>) -> Option<Seq<char>> {
    match s {
        Some(s) => Some(s@),
        None => None,
    }
}

impl View for State {
    type V = StateModel;

    open spec fn view(&self) -> StateModel {
        StateModel {
            doc: self.doc@,
            last_selected: path_opt(self.last_selected),
            history: docs_view(self.history@),
            mode: self.mode@,
            running: self.running,
            save_to: str_opt(self.save_to),
            new_file: self.new_file,
            pending_count: self.pending_count,
            scroll_x: self.scroll_x,
            dirty: self.dirty,
            colour_overlay: self.colour_overlay,
        }
    }
}

/// A document whose colours are the palette's and whose selection addresses a box.
pub open spec fn doc_wf(d: DocModel) -> bool {
    &&& colours_ok(d.boxes)
    &&& match d.selected {
        Some(p) => valid_path(d.boxes, p),
        None => true,
    }
}

/// The invariant that every key keeps.
pub open spec fn state_wf(s: StateModel) -> bool {
    &&& doc_wf(s.doc)
    &&& forall|i: int| 0 <= i < s.history.len() ==> #[trigger] doc_wf(s.history[i])
    &&& match s.last_selected {
        Some(p) => valid_path(s.doc.boxes, p),
        None => true,
    }
}

pub open spec fn empty_doc() -> DocModel {
    DocModel { boxes: Seq::empty(), selected: None }
}

/// The state that the editor starts in.
pub open spec fn default_spec() -> StateModel {
    StateModel {
        doc: empty_doc(),
        last_selected: None,
        history: Seq::empty(),
        mode: ModeModel::Command,
        running: true,
        save_to: None,
        new_file: false,
        pending_count: None,
        scroll_x: 0,
        dirty: false,
        colour_overlay: false,
    }
}

fn empty_document() -> (d: Document)
    ensures
        d@ == empty_doc(),
{
    let d = Document { boxes: Vec::new(), selected: None };
    proof {
        assert(models(d.boxes@) =~= Seq::<BoxModel>::empty());
    }
    d
}

impl Default for State {
    fn default() -> (r: Self)
        ensures
            r@ == default_spec(),
    {
        let r = State {
            doc: empty_document(),
            last_selected: None,
            history: Vec::new(),
            mode: Mode::Command,
            running: true,
            save_to: None,
            new_file: false,
            pending_count: None,
            scroll_x: 0,
            dirty: false,
            colour_overlay: false,
        };
        proof {
            assert(docs_view(r.history@) =~= Seq::<DocModel>::empty());
            assert(r@ =~= default_spec());
        }
        r
    }
}

/// A copy of a list of documents.
pub fn copy_documents(h: &Vec<Document>) -> (r: Vec<Document>)
    ensures
        docs_view(r@) == docs_view(h@),
{
    let mut r: Vec<Document> = Vec::new();
    let mut i: usize = 0;
    while i < h.len()
        invariant
            i <= h.len(),
            r.len() == i,
            forall|j: int| 0 <= j < i ==> (#[trigger] r@[j])@ == h@[j]@,
        decreases h.len() - i,
    {
        r.push(h[i].clone());
        i = i + 1;
    }
    proof {
        assert(docs_view(r@) =~= docs_view(h@));
    }
    r
}

/// A copy of an optional string.
pub fn copy_str_opt(s: &Option<String>) -> (r: Option<String>)
    ensures
        str_opt(r) == str_opt(*s),
{
    match s {
        Some(s) => Some(s.clone()),
        None => None,
    }
}

impl Clone for State {
    fn clone(&self) -> (r: Self)
        ensures
            r@ == self@,
    {
        State {
            doc: self.doc.clone(),
            last_selected: copy_path_opt(&self.last_selected),
            history: copy_documents(&self.history),
            mode: self.mode.clone(),
            running: self.running,
            save_to: copy_str_opt(&self.save_to),
            new_file: self.new_file,
            pending_count: self.pending_count,
            scroll_x: self.scroll_x,
            dirty: self.dirty,
            colour_overlay: self.colour_overlay,
        }
    }
}

/// A state holding the given boxes in the given mode, with the given selection.
pub fn new_state(boxes: Vec<Node>, mode: Mode, selected: Option<Path>) -> (r: State)
    ensures
        r@ == (StateModel {
            doc: DocModel { boxes: models(boxes@), selected: path_opt(selected) },
            mode: mode@,
            ..default_spec()
        }),
{
    let r = State {
        doc: Document { boxes, selected },
        last_selected: None,
        history: Vec::new(),
        mode,
        running: true,
        save_to: None,
        new_file: false,
        pending_count: None,
        scroll_x: 0,
        dirty: false,
        colour_overlay: false,
    };
    proof {
        assert(docs_view(r.history@) =~= Seq::<DocModel>::empty());
        assert(r@ =~= (StateModel {
            doc: DocModel { boxes: models(boxes@), selected: path_opt(selected) },
            mode: mode@,
            ..default_spec()
        }));
    }
    r
}

pub open spec fn load_spec(doc: DocModel, save_to: Option<Seq<char>>) -> StateModel {
    StateModel {
        doc: DocModel {
            boxes: doc.boxes,
            selected: if doc.boxes.len() > 0 {
                Some(PathModel { ancestors: Seq::empty(), index: 0 })
            } else {
                doc.selected
            },
        },
        save_to,
        ..default_spec()
    }
}

/// The state for editing a document that was read from a file: the first box is selected.
pub fn load(doc: Document, save_to: Option<String>) -> (r: State)
    ensures
        r@ == load_spec(doc@, str_opt(save_to)),
{
    let mut state = State::default();
    state.doc = doc;
    state.save_to = save_to;
    if state.doc.boxes.len() > 0 {
        state.doc.selected = Some(Path { ancestors: Vec::new(), index: 0 });
    }
    proof {
        lemma_models(state.doc.boxes@);
        assert(state@ =~= load_spec(doc@, str_opt(save_to)));
    }
    state
}

pub open spec fn new_file_spec(path: Seq<char>) -> StateModel {
    StateModel { save_to: Some(path), new_file: true, ..default_spec() }
}

/// The state for a file that does not exist yet: an empty canvas to be saved at that path.
pub fn new_file(path: String) -> (r: State)
    ensures
        r@ == new_file_spec(path@),
{
    let mut state = State::default();
    state.save_to = Some(path);
    state.new_file = true;
    proof {
        assert(state@ =~= new_file_spec(path@));
    }
    state
}

pub open spec fn hide_spec(s: StateModel) -> StateModel {
    if s.mode == ModeModel::Command && s.doc.selected is Some {
        StateModel {
            last_selected: s.doc.selected,
            doc: DocModel { selected: None, ..s.doc },
            ..s
        }
    } else {
        s
    }
}

/// After an idle second in command mode, hides the selection and keeps it to
/// be restored by the next key.
pub fn hide_idle_cursor(state: State) -> (r: State)
    ensures
        r@ == hide_spec(state@),
{
    let mut state = state;
    let ghost before = state@;
    let command = match state.mode {
        Mode::Command => true,
        _ => false,
    };
    if command && state.doc.selected.is_some() {
        state.last_selected = state.doc.selected.take();
        proof {
            assert(state@ =~= hide_spec(before));
        }
    }
    state
}


pub open spec fn snapshot_spec(s: StateModel) -> StateModel {
    StateModel { history: s.history.push(s.doc), dirty: true, ..s }
}

/// Records the document for undo, and marks the diagram as changed.
pub fn snapshot(state: State) -> (r: State)
    ensures
        r@ == snapshot_spec(state@),
{
    let mut state = state;
    let ghost start = state@;
    let copy = state.doc.clone();
    let ghost before = state.history@;
    state.history.push(copy);
    state.dirty = true;
    proof {
        assert(docs_view(state.history@) =~= docs_view(before).push(copy@));
        assert(state@ =~= snapshot_spec(start));
    }
    state
}

pub open spec fn undo_spec(s: StateModel) -> StateModel {
    if s.history.len() > 0 {
        StateModel { doc: s.history.last(), history: s.history.drop_last(), ..s }
    } else {
        s
    }
}

/// Goes back to the document as it was before the last recorded change.
pub fn undo(state: State) -> (r: State)
    ensures
        r@ == undo_spec(state@),
{
    let mut state = state;
    let ghost before = state@;
    match state.history.pop() {
        Some(previous) => {
            state.doc = previous;
            proof {
                assert(docs_view(state.history@) =~= before.history.drop_last());
                assert(state@ =~= undo_spec(before));
            }
        },
        None => {},
    }
    state
}

pub open spec fn drop_unchanged_spec(s: StateModel) -> StateModel {
    if s.history.len() > 0 && s.history.last() == s.doc {
        StateModel { history: s.history.drop_last(), ..s }
    } else {
        s
    }
}

/// Forgets the last record for undo when the document is the same as it.
pub fn drop_snapshot_if_unchanged(state: State) -> (r: State)
    ensures
        r@ == drop_unchanged_spec(state@),
{
    let mut state = state;
    let ghost before = state@;
    let n = state.history.len();
    if n > 0 && same_document(&state.history[n - 1], &state.doc) {
        state.history.pop();
        proof {
            assert(docs_view(state.history@) =~= before.history.drop_last());
            assert(state@ =~= drop_unchanged_spec(before));
        }
    }
    state
}

pub open spec fn add_child_spec(s: StateModel, sel: Option<PathModel>) -> StateModel {
    let boxes = s.doc.boxes;
    match sel {
        Some(p) => {
            let n = node_at(boxes, p);
            StateModel {
                doc: DocModel {
                    boxes: with_node(
                        boxes,
                        p,
                        BoxModel { children: n.children.push(blank_model()), ..n },
                    ),
                    selected: Some(
                        PathModel { ancestors: p.ancestors.push(p.index), index: n.children.len() as usize },
                    ),
                },
                mode: ModeModel::Insert,
                ..s
            }
        },
        None => StateModel {
            doc: DocModel {
                boxes: boxes.push(blank_model()),
                selected: Some(PathModel { ancestors: Seq::empty(), index: boxes.len() as usize }),
            },
            mode: ModeModel::Insert,
            ..s
        },
    }
}

/// Adds a blank box under the given box (or at the top level) and starts typing its label.
pub fn add_child_box(state: State, selected: Option<Path>) -> (r: State)
    requires
        match path_opt(selected) {
            Some(p) => valid_path(state@.doc.boxes, p),
            None => true,
        },
    ensures
        r@ == add_child_spec(state@, path_opt(selected)),
{
    let mut state = state;
    let ghost before = state@;
    match selected {
        Some(path) => {
            let mut n = replace_node(&mut state.doc.boxes, &path, blank_box());
            proof {
                lemma_with_node_valid(before.doc.boxes, path@, blank_model(), path@);
            }
            let ghost old_n = n;
            proof {
                lemma_models(n.children@);
            }
            let index = append(&mut n.children, blank_box());
            let ghost mid = models(state.doc.boxes@);
            replace_node(&mut state.doc.boxes, &path, n);
            proof {
                lemma_with_node_twice(before.doc.boxes, path@, blank_model(), model(n));
            }
            let ghost p = path@;
            let mut ancestors = path.ancestors;
            ancestors.push(path.index);
            state.doc.selected = Some(Path { ancestors, index });
            state.mode = Mode::Insert;
            proof {
                assert(model(n) =~= BoxModel {
                    children: node_at(before.doc.boxes, p).children.push(blank_model()),
                    ..node_at(before.doc.boxes, p)
                });
                assert(state@.doc.boxes == add_child_spec(before, Some(p)).doc.boxes);
                assert(state@.doc.selected == add_child_spec(before, Some(p)).doc.selected);
                assert(state@ =~= add_child_spec(before, Some(p)));
            }
        },
        None => {
            proof {
                lemma_models(state.doc.boxes@);
            }
            let index = append(&mut state.doc.boxes, blank_box());
            let empty: Vec<usize> = Vec::new();
            state.doc.selected = Some(Path { ancestors: empty, index });
            state.mode = Mode::Insert;
            proof {
                assert(state@.doc.boxes == before.doc.boxes.push(blank_model()));
                assert(state@.doc.selected == Some(PathModel { ancestors: Seq::<usize>::empty(), index: before.doc.boxes.len() as usize }));
                assert(state@.doc =~= add_child_spec(before, None).doc);
                assert(state@ =~= add_child_spec(before, None));
            }
        },
    }
    state
}


pub open spec fn restore_spec(s: StateModel) -> StateModel {
    match s.last_selected {
        Some(p) => StateModel {
            doc: DocModel { selected: Some(p), ..s.doc },
            last_selected: None,
            ..s
        },
        None => s,
    }
}

/// The count after one more digit is typed: ten times the count so far
/// (none counts as zero) plus the digit, stopping at the largest `usize`.
pub open spec fn next_count(pending: Option<usize>, d: nat) -> usize {
    let prev: int = match pending {
        Some(n) => n as int,
        None => 0,
    };
    if prev * 10 + d > usize::MAX {
        usize::MAX
    } else {
        (prev * 10 + d) as usize
    }
}

/// What a digit does in command mode: it extends the pending count, or,
/// while the colour overlay is shown, picks palette colour `count - 1`.
pub open spec fn digit_spec(s: StateModel, d: nat) -> StateModel {
    let v = next_count(s.pending_count, d);
    let s1 = StateModel { pending_count: Some(v), ..s };
    if !s.colour_overlay {
        s1
    } else {
        let s2 = StateModel { pending_count: None, colour_overlay: false, ..s1 };
        if 1 <= v <= 7 {
            match s2.doc.selected {
                Some(p) => {
                    let s3 = snapshot_spec(s2);
                    let n = node_at(s3.doc.boxes, p);
                    StateModel {
                        doc: DocModel {
                            boxes: with_node(s3.doc.boxes, p, BoxModel { colour: Some((v - 1) as u8), ..n }),
                            ..s3.doc
                        },
                        ..s3
                    }
                },
                None => s2,
            }
        } else {
            s2
        }
    }
}

pub open spec fn is_digit_key(k: Seq<char>) -> bool {
    k.len() == 1 && crate::text::is_digit(k[0])
}

/// The view moved `d` columns, with everything else, a pending count too,
/// as it was.
pub open spec fn scroll_spec(s: StateModel, d: i64) -> StateModel {
    StateModel { scroll_x: (s.scroll_x + d) as i64, ..s }
}

/// Moves the view `d` columns.
pub fn scroll(state: State, d: i64) -> (r: State)
    requires
        i64::MIN <= state@.scroll_x + d <= i64::MAX,
    ensures
        r@ == scroll_spec(state@, d),
{
    let ghost s0 = state@;
    let mut state = state;
    state.scroll_x = state.scroll_x + d;
    proof {
        assert(state@ =~= scroll_spec(s0, d));
    }
    state
}

/// What a key does: it first brings back a selection hidden while idle;
/// a scroll key scrolls in every mode; then the mode decides.
pub open spec fn handle_key_spec(s: StateModel, k: Seq<char>) -> StateModel {
    let s0 = restore_spec(s);
    match command_mode::parse_spec(k) {
        Some(command_mode::Command::ScrollBy(d)) => scroll_spec(s0, d),
        _ => match s0.mode {
            ModeModel::Command => if is_digit_key(k) {
                digit_spec(s0, ((k[0] as nat) - 48) as nat)
            } else {
                match command_mode::parse_spec(k) {
                    Some(c) => command_mode::reduce_spec(s0, c),
                    None => StateModel { pending_count: None, ..s0 },
                }
            },
            ModeModel::Insert => match insert_mode::parse_spec(k) {
                Some(c) => insert_mode::reduce_spec(s0, c),
                None => s0,
            },
            ModeModel::SavePrompt(_) => match save_prompt_mode::parse_spec(k) {
                Some(c) => save_prompt_mode::reduce_spec(s0, c),
                None => s0,
            },
        },
    }
}

/// A scroll key does not move the view past what an `i64` holds.
pub open spec fn scroll_in_range(s: StateModel, k: Seq<char>) -> bool {
    match command_mode::parse_spec(k) {
        Some(command_mode::Command::ScrollBy(d)) => i64::MIN <= s.scroll_x + d <= i64::MAX,
        _ => true,
    }
}

/// The inputs on which a key runs to its end: a scroll stays within an
/// `i64`, and a colour picked from the overlay has a box to go to.
pub open spec fn key_ok(s: StateModel, k: Seq<char>) -> bool {
    let s0 = restore_spec(s);
    &&& scroll_in_range(s, k)
    &&& (s0.mode == ModeModel::Command && is_digit_key(k) && s0.colour_overlay && 1 <= next_count(
        s0.pending_count,
        ((k[0] as nat) - 48) as nat,
    ) <= 7) ==> s0.doc.selected is Some
}

/// Brings back a selection hidden while idle.
pub fn restore(state: State) -> (r: State)
    ensures
        r@ == restore_spec(state@),
{
    let ghost s = state@;
    let mut state = state;
    match state.last_selected.take() {
        Some(p) => {
            state.doc.selected = Some(p);
        },
        None => {},
    }
    proof {
        assert(state@ =~= restore_spec(s));
    }
    state
}

fn extend_count(pending: Option<usize>, d: usize) -> (r: usize)
    requires
        d < 10,
    ensures
        r == next_count(pending, d as nat),
{
    let prev: usize = match pending {
        Some(n) => n,
        None => 0,
    };
    if prev > (usize::MAX - d) / 10 {
        proof {
            assert(prev * 10 + d > usize::MAX) by (nonlinear_arith)
                requires
                    prev > (usize::MAX - d) / 10,
                    d < 10,
            ;
        }
        usize::MAX
    } else {
        proof {
            assert(prev * 10 + d <= usize::MAX) by (nonlinear_arith)
                requires
                    prev <= (usize::MAX - d) / 10,
                    d < 10,
            ;
        }
        prev * 10 + d
    }
}

fn digit_key(state: State, d: usize) -> (r: State)
    requires
        d < 10,
        state_wf(state@),
        (state@.colour_overlay && 1 <= next_count(state@.pending_count, d as nat) <= 7)
            ==> state@.doc.selected is Some,
    ensures
        r@ == digit_spec(state@, d as nat),
{
    let ghost s = state@;
    let mut state = state;
    let v = extend_count(state.pending_count, d);
    state.pending_count = Some(v);
    if state.colour_overlay {
        state.pending_count = None;
        state.colour_overlay = false;
        if 1 <= v && v <= 7 {
            let path = match copy_path_opt(&state.doc.selected) {
                Some(p) => p,
                None => {
                    proof {
                        assert(false);
                    }
                    return state;
                },
            };
            let mut state = snapshot(state);
            proof {
                crate::diagram::lemma_node_colour_ok(state@.doc.boxes, path@);
            }
            command_mode::edit_node(&mut state.doc.boxes, &path, command_mode::NodeEdit::SetColour((v - 1) as u8));
            proof {
                assert(state@ =~= digit_spec(s, d as nat));
            }
            return state;
        }
    }
    proof {
        assert(state@ =~= digit_spec(s, d as nat));
    }
    state
}

/// Whether a key can run on the state: a scroll stays within what an `i64`
/// holds, and a colour picked from the overlay has a box to go to.
pub fn key_fits(state: &State, key: &str) -> (r: bool)
    ensures
        r == key_ok(state@, key@),
{
    let k = chars_of(key);
    let scroll_ok = match command_mode::parse_chars(&k) {
        Some(command_mode::Command::ScrollBy(d)) => state.scroll_x.checked_add(d).is_some(),
        _ => true,
    };
    let commanding = match state.mode {
        Mode::Command => true,
        _ => false,
    };
    let picks = if commanding && k.len() == 1 && '0' <= k[0] && k[0] <= '9' && state.colour_overlay {
        let d = (k[0] as u32 - 48) as usize;
        let v = extend_count(state.pending_count, d);
        1 <= v && v <= 7
    } else {
        false
    };
    let has_box = state.last_selected.is_some() || state.doc.selected.is_some();
    proof {
        if k@.len() == 1 {
            assert(k@ =~= key@);
        }
    }
    scroll_ok && (!picks || has_box)
}

/// Runs one key against the state.
pub fn handle_key(state: State, key: &str) -> (r: State)
    requires
        state_wf(state@),
        key_ok(state@, key@),
    ensures
        r@ == handle_key_spec(state@, key@),
        command_mode::parse_spec(key@) matches Some(command_mode::Command::ScrollBy(d)) ==> r@.scroll_x
            == state@.scroll_x + d && r@.pending_count == state@.pending_count && r@.doc
            == restore_spec(state@).doc && r@.mode == state@.mode && r@.running == state@.running,
{
    let k = chars_of(key);
    let ghost s_in = state@;
    let state = restore(state);
    proof {
        crate::wf::lemma_restore_wf(s_in);
    }
    match command_mode::parse_chars(&k) {
        Some(command_mode::Command::ScrollBy(d)) => {
            return scroll(state, d);
        },
        _ => {},
    }
    match state.mode {
        Mode::Command => {
            if k.len() == 1 && '0' <= k[0] && k[0] <= '9' {
                let d = (k[0] as u32 - 48) as usize;
                digit_key(state, d)
            } else {
                match command_mode::parse_chars(&k) {
                    Some(c) => command_mode::reduce(state, c),
                    None => {
                        let mut state = state;
                        state.pending_count = None;
                        state
                    },
                }
            }
        },
        Mode::Insert => match insert_mode::parse_chars(&k) {
            Some(c) => insert_mode::reduce(state, c),
            None => state,
        },
        Mode::SavePrompt { .. } => match save_prompt_mode::parse_chars(&k) {
            Some(c) => save_prompt_mode::reduce(state, c),
            None => state,
        },
    }
}

/// What the editor does with the next key, or with an idle second (`None`):
/// Ctrl-C stops it without saving, another key runs, and an idle second
/// hides the selection.
pub open spec fn reduce_spec(s: StateModel, key: Option<Seq<char>>) -> StateModel {
    match key {
        None => hide_spec(s),
        Some(k) => if k == INTERRUPT@ {
            StateModel { save_to: None, running: false, ..s }
        } else {
            handle_key_spec(s, k)
        },
    }
}

/// Whether a key is Ctrl-C.
pub fn is_interrupt(k: &str) -> (r: bool)
    ensures
        r == (k@ == INTERRUPT@),
{
    proof {
        reveal_strlit("\x03");
    }
    let v = chars_of(k);
    if v.len() == 1 && v[0] == '\x03' {
        assert(k@ =~= INTERRUPT@);
        true
    } else {
        false
    }
}

/// Runs the next key, or an idle second, against the state.
pub fn reduce(state: State, key: Option<&str>) -> (r: State)
    requires
        state_wf(state@),
        match key {
            Some(k) => key_ok(state@, k@),
            None => true,
        },
    ensures
        r@ == reduce_spec(state@, match key {
            Some(k) => Some(k@),
            None => None,
        }),
        state_wf(r@),
{
    let ghost s = state@;
    match key {
        None => {
            proof {
                crate::wf::lemma_hide_wf(s);
            }
            let r = hide_idle_cursor(state);
            assert(r@ == reduce_spec(s, None));
            r
        },
        Some(k) => {
            if is_interrupt(k) {
                let mut state = state;
                state.save_to = None;
                state.running = false;
                proof {
                    assert(state@ =~= reduce_spec(s, Some(k@)));
                }
                state
            } else {
                proof {
                    crate::wf::lemma_handle_key_wf(s, k@);
                }
                handle_key(state, k)
            }
        },
    }
}

} // verus!
