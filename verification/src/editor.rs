//! What the editor decides between keys: keeping the selected box in view,
//! and when the document is worth saving.
use vstd::prelude::*;
use crate::command_mode::{self, Command};
use crate::diagram::{DocModel, Document, indices, path_indices};
use crate::layout::{
    Placement, PlacementModel, PlacementNode, PlacementNodeModel, all_bounded, bounded,
    box_filter, diagram, diagram_spec, first_label, first_label_index, fits, labels, layout_fits,
    same_indices, views,
};
use crate::state::{
    Mode, ModeModel, State, StateModel, handle_key, handle_key_spec, is_interrupt, key_ok, reduce,
    reduce_spec, restore, restore_spec, state_wf, INTERRUPT,
};

verus! {

pub open spec fn in_i64(x: int) -> bool {
    i64::MIN <= x <= i64::MAX
}

/// How far to scroll so that a box's right edge lands on the last column,
/// when it lies past the right edge of the screen.
pub open spec fn overflow_spec(right: int, scroll: int, cols: int) -> Option<int> {
    if right - scroll > cols {
        Some(right - scroll - (cols - 1))
    } else {
        None
    }
}

/// The arithmetic of `overflow_delta` stays within an `i64`.
pub open spec fn overflow_fits(right: int, scroll: int, cols: int) -> bool {
    &&& in_i64(right - scroll)
    &&& in_i64(cols - 1)
    &&& (right - scroll > cols ==> in_i64(right - scroll - (cols - 1)))
}

pub open spec fn wide(o: Option<i64>) -> Option<int> {
    match o {
        Some(d) => Some(d as int),
        None => None,
    }
}

/// How far to scroll right to bring a box's right edge onto the screen, if
/// it lies past it.
pub fn overflow_delta(box_left: i64, box_right: i64, scroll_x: i64, cols: i64) -> (r: Option<i64>)
    requires
        overflow_fits(box_right as int, scroll_x as int, cols as int),
    ensures
        wide(r) == overflow_spec(box_right as int, scroll_x as int, cols as int),
{
    if box_right - scroll_x > cols {
        Some(box_right - scroll_x - (cols - 1))
    } else {
        None
    }
}

pub open spec fn label_filter() -> spec_fn(PlacementModel) -> bool {
    |p: PlacementModel| p.node is Label
}

/// The left and right edge of the box whose label is the first to name
/// `path`, pairing the boxes and the labels in the order they come.
pub open spec fn box_edges_spec(ps: Seq<PlacementModel>, path: Seq<usize>) -> Option<(int, int)> {
    let bs = ps.filter(box_filter());
    let ls = ps.filter(label_filter());
    if exists|k: int| first_label(ls, path, k) && k < bs.len() {
        let k = first_label_index(ls, path);
        Some((bs[k].x, bs[k].x + bs[k].width))
    } else {
        None
    }
}

pub open spec fn wide_pair(o: Option<(i64, i64)>) -> Option<(int, int)> {
    match o {
        Some((a, b)) => Some((a as int, b as int)),
        None => None,
    }
}

/// The edges of the box labelled with `path`, the boxes and labels paired
/// in the order they are placed.
pub fn box_edges(placements: &Vec<Placement>, path: &Vec<usize>) -> (r: Option<(i64, i64)>)
    requires
        all_bounded(views(placements@)),
    ensures
        wide_pair(r) == box_edges_spec(views(placements@), path@),
{
    let ghost ps = views(placements@);
    let mut edges: Vec<(i64, i64)> = Vec::new();
    let mut paths: Vec<&Vec<usize>> = Vec::new();
    let mut i: usize = 0;
    proof {
        assert(ps.take(0) =~= Seq::<PlacementModel>::empty());
        reveal(Seq::filter);
    }
    while i < placements.len()
        invariant
            i <= placements.len(),
            ps == views(placements@),
            all_bounded(ps),
            edges@.len() == ps.take(i as int).filter(box_filter()).len(),
            forall|j: int|
                0 <= j < edges@.len() ==> {
                    let b = #[trigger] ps.take(i as int).filter(box_filter())[j];
                    edges@[j].0 == b.x && edges@[j].1 == b.x + b.width
                },
            paths@.len() == ps.take(i as int).filter(label_filter()).len(),
            forall|j: int|
                0 <= j < paths@.len() ==> (#[trigger] ps.take(i as int).filter(label_filter())[j]).node
                    == (PlacementNodeModel::Label {
                        text: ps.take(i as int).filter(label_filter())[j].node->text,
                        path: paths@[j]@,
                    }),
        decreases placements.len() - i,
    {
        let ghost fb = ps.take(i as int).filter(box_filter());
        let ghost fl = ps.take(i as int).filter(label_filter());
        proof {
            assert(ps.take(i + 1) =~= ps.take(i as int).push(ps[i as int]));
            ps.take(i as int).lemma_filter_push(ps[i as int], box_filter());
            ps.take(i as int).lemma_filter_push(ps[i as int], label_filter());
            assert(bounded(ps[i as int]));
        }
        let p = &placements[i];
        match &p.node {
            PlacementNode::Box { .. } => {
                edges.push((p.x, p.x + p.width));
                proof {
                    assert(ps.take(i + 1).filter(box_filter()) == fb.push(ps[i as int]));
                    assert(ps.take(i + 1).filter(label_filter()) == fl);
                    assert forall|j: int| 0 <= j < edges@.len() implies {
                        let b = #[trigger] ps.take(i + 1).filter(box_filter())[j];
                        edges@[j].0 == b.x && edges@[j].1 == b.x + b.width
                    } by {
                        if j < fb.len() {
                            assert(ps.take(i + 1).filter(box_filter())[j] == fb[j]);
                        }
                    }
                }
            },
            PlacementNode::Label(label) => {
                paths.push(&label.path);
                proof {
                    assert(ps.take(i + 1).filter(label_filter()) == fl.push(ps[i as int]));
                    assert(ps.take(i + 1).filter(box_filter()) == fb);
                    assert forall|j: int| 0 <= j < paths@.len() implies (#[trigger] ps.take(
                        i + 1,
                    ).filter(label_filter())[j]).node == (PlacementNodeModel::Label {
                        text: ps.take(i + 1).filter(label_filter())[j].node->text,
                        path: paths@[j]@,
                    }) by {
                        if j < fl.len() {
                            assert(ps.take(i + 1).filter(label_filter())[j] == fl[j]);
                        }
                    }
                }
            },
            _ => {
                proof {
                    assert(ps.take(i + 1).filter(label_filter()) == fl);
                    assert(ps.take(i + 1).filter(box_filter()) == fb);
                }
            },
        }
        i = i + 1;
    }
    proof {
        assert(ps.take(i as int) =~= ps);
    }
    let ghost bs = ps.filter(box_filter());
    let ghost ls = ps.filter(label_filter());
    let mut k: usize = 0;
    while k < edges.len() && k < paths.len()
        invariant
            k <= edges@.len(),
            k <= paths@.len(),
            edges@.len() == bs.len(),
            paths@.len() == ls.len(),
            ps == views(placements@),
            bs == ps.filter(box_filter()),
            ls == ps.filter(label_filter()),
            forall|j: int|
                0 <= j < edges@.len() ==> edges@[j].0 == (#[trigger] bs[j]).x && edges@[j].1 == bs[j].x
                    + bs[j].width,
            forall|j: int|
                0 <= j < paths@.len() ==> (#[trigger] ls[j]).node == (PlacementNodeModel::Label {
                    text: ls[j].node->text,
                    path: paths@[j]@,
                }),
            forall|j: int| 0 <= j < k ==> !labels(#[trigger] ls[j], path@),
        decreases edges.len() - k,
    {
        if same_indices(paths[k], path) {
            proof {
                assert(labels(ls[k as int], path@));
                assert(first_label(ls, path@, k as int));
                let c = first_label_index(ls, path@);
                if c < k {
                    assert(!labels(ls[c], path@));
                }
                if c > k {
                    assert(!labels(ls[k as int], path@));
                }
                assert(c == k);
                assert(first_label(ls, path@, k as int) && (k as int) < bs.len());
                assert(edges@[k as int].0 == bs[k as int].x);
            }
            return Some(edges[k]);
        }
        proof {
            assert(!labels(ls[k as int], path@));
        }
        k = k + 1;
    }
    proof {
        assert forall|c: int| !(first_label(ls, path@, c) && c < bs.len()) by {
            if first_label(ls, path@, c) && c < bs.len() {
                assert(c < k);
                assert(!labels(ls[c], path@));
            }
        }
    }
    None
}

/// The edges of the selected box, as the layout places it.
pub open spec fn selected_edges_spec(doc: DocModel) -> Option<(int, int)> {
    match doc.selected {
        Some(p) => box_edges_spec(diagram_spec(doc.boxes), path_indices(p)),
        None => None,
    }
}

/// The left and right edge of the selected box, if something is selected.
pub fn selected_box_edges(doc: &Document) -> (r: Option<(i64, i64)>)
    requires
        layout_fits(doc@.boxes),
    ensures
        wide_pair(r) == selected_edges_spec(doc@),
{
    match &doc.selected {
        None => None,
        Some(p) => {
            let placements = diagram(&doc.boxes);
            let path = indices(p);
            box_edges(&placements, &path)
        },
    }
}

/// After a key: when the selected box's right edge lies past the screen,
/// the view scrolls right just far enough to show it on the last column.
/// A diagram too large for the layout, or a scroll past what an `i64`
/// holds, leaves the view where it is.
pub open spec fn follow_spec(s: StateModel, cols: int) -> StateModel {
    if !layout_fits(s.doc.boxes) {
        s
    } else {
        match selected_edges_spec(s.doc) {
            Some((_, right)) => match overflow_spec(right, s.scroll_x as int, cols) {
                Some(d) => if overflow_fits(right, s.scroll_x as int, cols) && in_i64(s.scroll_x + d) {
                    command_mode::reduce_spec(restore_spec(s), Command::ScrollBy(d as i64))
                } else {
                    s
                },
                None => s,
            },
            None => s,
        }
    }
}

/// Scrolls the view so that the selected box is on the screen, `cols`
/// columns wide.
pub fn follow_selection(state: State, cols: i64) -> (r: State)
    requires
        state_wf(state@),
    ensures
        r@ == follow_spec(state@, cols as int),
        state_wf(r@),
{
    let ghost s = state@;
    if !fits(&state.doc.boxes) {
        return state;
    }
    let (left, right) = match selected_box_edges(&state.doc) {
        Some(edges) => edges,
        None => {
            return state;
        },
    };
    let wide_right = right as i128;
    let scroll = state.scroll_x as i128;
    let c = cols as i128;
    let room: i128 = wide_right - scroll;
    if !(room > c) {
        return state;
    }
    let delta: i128 = room - (c - 1);
    if room > i64::MAX as i128 || room < i64::MIN as i128 || c - 1 < i64::MIN as i128 || delta
        > i64::MAX as i128 || scroll + delta > i64::MAX as i128 || scroll + delta < i64::MIN as i128 {
        return state;
    }
    let d = match overflow_delta(left, right, state.scroll_x, cols) {
        Some(d) => d,
        None => {
            return state;
        },
    };
    proof {
        crate::wf::lemma_restore_wf(s);
        crate::wf::lemma_command_wf(restore_spec(s), Command::ScrollBy(d));
    }
    let state = restore(state);
    command_mode::reduce(state, Command::ScrollBy(d))
}

/// One key, or an idle second (`None`), through the editor: Ctrl-C stops
/// without saving, an idle second hides the selection, and any other key
/// runs and then brings the selected box into view.
pub open spec fn step_spec(s: StateModel, key: Option<Seq<char>>, cols: int) -> StateModel {
    match key {
        Some(k) => if k == INTERRUPT@ {
            reduce_spec(s, key)
        } else {
            follow_spec(handle_key_spec(s, k), cols)
        },
        None => reduce_spec(s, key),
    }
}

pub open spec fn key_opt(key: Option<&str>) -> Option<Seq<char>> {
    match key {
        Some(k) => Some(k@),
        None => None,
    }
}

/// Runs the next key, or an idle second, on a screen `cols` columns wide.
pub fn step(state: State, key: Option<&str>, cols: i64) -> (r: State)
    requires
        state_wf(state@),
        match key {
            Some(k) => key_ok(state@, k@),
            None => true,
        },
    ensures
        r@ == step_spec(state@, key_opt(key), cols as int),
        state_wf(r@),
{
    let ghost s = state@;
    match key {
        Some(k) => {
            if is_interrupt(k) {
                reduce(state, key)
            } else {
                proof {
                    crate::wf::lemma_handle_key_wf(s, k@);
                }
                let after = handle_key(state, k);
                follow_selection(after, cols)
            }
        },
        None => reduce(state, None),
    }
}

/// Whether a document is due to be saved after a key: there is a file to
/// save to, no label is being typed, and the history has changed length
/// since the last save.
pub open spec fn autosave_spec(s: StateModel, saved_len: nat) -> bool {
    s.save_to is Some && s.mode != ModeModel::Insert && s.history.len() != saved_len
}

/// Whether to save the document now, given the history length at the last
/// save.
pub fn autosave_due(state: &State, saved_len: usize) -> (r: bool)
    ensures
        r == autosave_spec(state@, saved_len as nat),
{
    let typing = match state.mode {
        Mode::Insert => true,
        _ => false,
    };
    state.save_to.is_some() && !typing && state.history.len() != saved_len
}

} // verus!
