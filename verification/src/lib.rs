//! A keyboard-driven diagram editor: a tree of boxes, built and styled one
//! key at a time, with undo, and saved to a `.dre` file.
use vstd::prelude::*;

pub mod diagram;
pub mod text;
pub mod palette;
pub mod state;
pub mod command_mode;
pub mod insert_mode;
pub mod save_prompt_mode;
pub mod wf;
pub mod status_line;
pub mod layout;
pub mod composer;
pub mod render;
pub mod canvas;
pub mod kitty;
pub mod cells;
pub mod editor;
pub mod file_document;
pub mod cli;
pub mod filesystem;
pub mod laws;
pub mod keymap;
pub mod v0;
pub mod tree_editor;
pub mod tree_layout;

pub use diagram::Document;
pub use state::State;
use state::{StateModel, state_wf, reduce_spec, scroll_in_range};
use diagram::DocModel;

verus! {


/// How long, in milliseconds, the editor waits for a key before it hides
/// the selection.
pub const IDLE_TIMEOUT_MS: u16 = 1000;

/// An editing session: the editor's state, fed one key at a time.
pub struct Session {
    state: State,
}

impl View for Session {
    type V = StateModel;

    closed spec fn view(&self) -> StateModel {
        self.state@
    }
}

impl Session {
    /// Every state a session is in is well formed, with the colour overlay off.
    #[verifier::type_invariant]
    closed spec fn inv(self) -> bool {
        state_wf(self.state@) && !self.state@.colour_overlay
    }

    /// A session on an empty diagram, in command mode.
    pub fn new() -> (r: Self)
        ensures
            r@ == state::default_spec(),
    {
        Session { state: State::default() }
    }

    /// Feeds one key to the session.
    pub fn press_key(&mut self, key: &str)
        requires
            scroll_in_range(old(self)@, key@),
        ensures
            final(self)@ == reduce_spec(old(self)@, Some(key@)),
    {
        proof {
            use_type_invariant(&*self);
        }
        let ghost before = self@;
        let mut current = State::default();
        std::mem::swap(&mut current, &mut self.state);
        let next = state::reduce(current, Some(key));
        proof {
            wf::lemma_handle_key_keeps_overlay_off(before, key@);
        }
        self.state = next;
    }

    /// Tells the session that no key came for a while.
    pub fn go_idle(&mut self)
        ensures
            final(self)@ == reduce_spec(old(self)@, None),
    {
        proof {
            use_type_invariant(&*self);
        }
        let mut current = State::default();
        std::mem::swap(&mut current, &mut self.state);
        let next = state::reduce(current, None);
        self.state = next;
    }

    /// Whether the editor still takes keys.
    pub fn is_running(&self) -> (r: bool)
        ensures
            r == self@.running,
    {
        self.state.running
    }

    /// The diagram being edited.
    pub fn document(&self) -> (r: &Document)
        ensures
            r@ == self@.doc,
    {
        &self.state.doc
    }

    /// How far right and how far down the diagram reaches, in cells.
    pub fn extent(&self) -> (r: (i64, i64))
        requires
            layout::layout_fits(self@.doc.boxes),
        ensures
            r.0 == layout::right_edge(layout::diagram_spec(self@.doc.boxes)),
            r.1 == layout::bottom_edge(layout::diagram_spec(self@.doc.boxes)),
            self@.doc.boxes.len() == 0 ==> r == (0i64, 0i64),
            self@.doc.boxes.len() > 0 ==> r.1 == 6 * layout::leaf_count(self@.doc.boxes) - 3,
            self@.doc.boxes.len() > 0 ==> r.0 == layout::seq_sum(layout::measure_forest(self@.doc.boxes)),
    {
        proof {
            layout::law_layout_height(self@.doc.boxes);
            layout::law_layout_width(self@.doc.boxes);
        }
        let placements = layout::diagram(&self.state.doc.boxes);
        layout::extent_of(&placements)
    }

    /// The editor's whole state.
    pub fn state(&self) -> (r: &State)
        ensures
            r@ == self@,
    {
        &self.state
    }
}

impl Default for Session {
    fn default() -> (r: Self)
        ensures
            r@ == state::default_spec(),
    {
        Session::new()
    }
}

} // verus!
