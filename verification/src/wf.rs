//! Every key keeps the state well formed: the colours are the palette's and
//! every selection, stored or recorded, addresses a box.
use vstd::prelude::*;
use crate::diagram::{
    BoxModel, DocModel, PathModel, colours_ok, box_colours_ok, colour_ok, valid_path,
    valid_ancestors, siblings_at, replace_siblings, node_at, with_node, with_appended, blank_model,
    lemma_colours_ok, lemma_colours_ok_update, lemma_colours_ok_push, lemma_colours_ok_replace,
    lemma_replace_keeps_ancestors, lemma_node_colour_ok, lemma_ancestors_push,
    lemma_ancestors_prefix, lemma_with_node_valid,
};
use crate::state::{
    state_wf, doc_wf, restore_spec, StateModel, ModeModel, snapshot_spec, undo_spec,
    add_child_spec, drop_unchanged_spec, digit_spec, handle_key_spec, key_ok, hide_spec,
    is_digit_key, next_count,
};
use crate::command_mode::{
    self, Command, reduce_spec, apply_spec, reselect, parent_n, next_n, previous_n, child_of,
    colour_row_spec, fill_row_spec, quit_spec, new_sibling_spec, insert_with_label, on_node,
    on_row, depth_of, min_depth_spec, is_undoable_spec,
};
use crate::palette::{next_on_palette_spec, PALETTE_LEN};
use crate::insert_mode;
use crate::save_prompt_mode;

verus! {

pub proof fn lemma_restore_wf(s: StateModel)
    requires
        state_wf(s),
    ensures
        state_wf(restore_spec(s)),
        restore_spec(s).last_selected is None,
{
}

proof fn lemma_blank_ok()
    ensures
        box_colours_ok(blank_model()),
{
    assert(colours_ok(Seq::<BoxModel>::empty()));
}

/// Changing one box to one with palette colours keeps the forest's colours
/// and every path through that list of boxes.
pub proof fn lemma_with_node_wf(bs: Seq<BoxModel>, p: PathModel, n: BoxModel)
    requires
        colours_ok(bs),
        valid_path(bs, p),
        box_colours_ok(n),
    ensures
        colours_ok(with_node(bs, p, n)),
        valid_path(with_node(bs, p, n), p),
        siblings_at(with_node(bs, p, n), p.ancestors) == siblings_at(bs, p.ancestors).update(
            p.index as int,
            n,
        ),
{
    lemma_node_colour_ok(bs, p);
    lemma_colours_ok_update(siblings_at(bs, p.ancestors), p.index as int, n);
    lemma_colours_ok_replace(
        bs,
        p.ancestors,
        siblings_at(bs, p.ancestors).update(p.index as int, n),
    );
    lemma_with_node_valid(bs, p, n, p);
}

/// Replacing a list of boxes by one as long, with palette colours, keeps
/// the forest's colours and every path into that list.
pub proof fn lemma_row_wf(bs: Seq<BoxModel>, p: PathModel, row: Seq<BoxModel>)
    requires
        colours_ok(bs),
        valid_path(bs, p),
        colours_ok(row),
        row.len() == siblings_at(bs, p.ancestors).len(),
    ensures
        colours_ok(replace_siblings(bs, p.ancestors, row)),
        valid_path(replace_siblings(bs, p.ancestors, row), p),
{
    lemma_colours_ok_replace(bs, p.ancestors, row);
    lemma_replace_keeps_ancestors(bs, p.ancestors, row);
}

proof fn lemma_box_settings_ok(n: BoxModel, m: BoxModel)
    requires
        box_colours_ok(n),
        m.children == n.children,
        colour_ok(m.colour),
    ensures
        box_colours_ok(m),
{
}

proof fn lemma_add_child_wf(s: StateModel, sel: Option<PathModel>)
    requires
        doc_wf(s.doc),
        match sel {
            Some(p) => valid_path(s.doc.boxes, p),
            None => true,
        },
    ensures
        doc_wf(add_child_spec(s, sel).doc),
{
    lemma_blank_ok();
    let bs = s.doc.boxes;
    match sel {
        Some(p) => {
            let n = node_at(bs, p);
            lemma_node_colour_ok(bs, p);
            let n2 = BoxModel { children: n.children.push(blank_model()), ..n };
            lemma_colours_ok_push(n.children, blank_model());
            lemma_with_node_wf(bs, p, n2);
            let nb = with_node(bs, p, n2);
            lemma_ancestors_push(nb, p.ancestors, p.index);
        },
        None => {
            lemma_colours_ok_push(bs, blank_model());
            assert(valid_ancestors(bs.push(blank_model()), Seq::<usize>::empty()));
        },
    }
}

proof fn lemma_new_sibling_wf(s: StateModel, p: PathModel)
    requires
        doc_wf(s.doc),
        valid_path(s.doc.boxes, p),
    ensures
        doc_wf(new_sibling_spec(s, p).doc),
{
    lemma_blank_ok();
    let bs = s.doc.boxes;
    let sib = siblings_at(bs, p.ancestors);
    lemma_node_colour_ok(bs, p);
    lemma_colours_ok_push(sib, blank_model());
    lemma_colours_ok_replace(bs, p.ancestors, sib.push(blank_model()));
    lemma_replace_keeps_ancestors(bs, p.ancestors, sib.push(blank_model()));
}

proof fn lemma_colour_row_ok(sibs: Seq<BoxModel>)
    requires
        colours_ok(sibs),
        sibs.len() > 0,
    ensures
        colours_ok(colour_row_spec(sibs)),
        colour_row_spec(sibs).len() == sibs.len(),
{
    lemma_colours_ok(sibs);
    let row = colour_row_spec(sibs);
    assert(box_colours_ok(sibs[0]));
    assert forall|j: int| 0 <= j < row.len() implies #[trigger] box_colours_ok(row[j]) by {
        assert(box_colours_ok(sibs[j]));
    }
    lemma_colours_ok(row);
}

proof fn lemma_fill_row_ok(sibs: Seq<BoxModel>)
    requires
        colours_ok(sibs),
    ensures
        colours_ok(fill_row_spec(sibs)),
        fill_row_spec(sibs).len() == sibs.len(),
{
    lemma_colours_ok(sibs);
    let row = fill_row_spec(sibs);
    assert forall|j: int| 0 <= j < row.len() implies #[trigger] box_colours_ok(row[j]) by {
        assert(box_colours_ok(sibs[j]));
    }
    lemma_colours_ok(row);
}

proof fn lemma_selection_moves_wf(bs: Seq<BoxModel>, p: PathModel, count: usize)
    requires
        colours_ok(bs),
        valid_path(bs, p),
    ensures
        valid_path(bs, parent_n(p, count)),
        valid_path(bs, child_of(bs, p)),
        valid_path(bs, next_n(bs, p, count)),
        valid_path(bs, previous_n(p, count)),
{
    let len = p.ancestors.len();
    if count != 0 && len != 0 {
        let k: int = if count < len {
            count as int
        } else {
            len as int
        };
        lemma_ancestors_prefix(bs, p.ancestors, len - k);
    }
    lemma_ancestors_push(bs, p.ancestors, p.index);
}

/// A command on a selected box keeps the state well formed.
proof fn lemma_on_selection_wf(s: StateModel, c: Command, p: PathModel, count: usize)
    requires
        state_wf(s),
        s.doc.selected is None,
        s.last_selected is None,
        valid_path(s.doc.boxes, p),
        !(c is Undo || c is NewBox || c is Quit || c is ScrollBy),
    ensures
        state_wf(apply_spec(s, c, Some(p), count)),
{
    let bs = s.doc.boxes;
    let n = node_at(bs, p);
    let sibs = siblings_at(bs, p.ancestors);
    lemma_node_colour_ok(bs, p);
    match c {
        Command::SelectParent => {
            lemma_selection_moves_wf(bs, p, count);
            assert(state_wf(reselect(s, Some(parent_n(p, count)))));
        },
        Command::SelectChild => {
            lemma_selection_moves_wf(bs, p, count);
            assert(state_wf(reselect(s, Some(child_of(bs, p)))));
        },
        Command::SelectNext => {
            lemma_selection_moves_wf(bs, p, count);
            assert(state_wf(reselect(s, Some(next_n(bs, p, count)))));
        },
        Command::SelectPrevious => {
            lemma_selection_moves_wf(bs, p, count);
            assert(state_wf(reselect(s, Some(previous_n(p, count)))));
        },
        Command::NewSibling => lemma_new_sibling_wf(s, p),
        Command::EditLabel => lemma_with_node_wf(bs, p, BoxModel { label: n.label.push(' '), ..n }),
        Command::RenameLabel => lemma_with_node_wf(bs, p, BoxModel { label: seq![' '], ..n }),
        Command::CycleColour => {
            let m = BoxModel { colour: next_on_palette_spec(n.colour), ..n };
            lemma_box_settings_ok(n, m);
            lemma_with_node_wf(bs, p, m);
        },
        Command::ToggleFill => lemma_with_node_wf(bs, p, BoxModel { filled: !n.filled, ..n }),
        Command::ToggleRounded => lemma_with_node_wf(bs, p, BoxModel { rounded: !n.rounded, ..n }),
        Command::CycleSiblingsColour => {
            lemma_colour_row_ok(sibs);
            lemma_row_wf(bs, p, colour_row_spec(sibs));
        },
        Command::ToggleSiblingsFill => {
            lemma_fill_row_ok(sibs);
            lemma_row_wf(bs, p, fill_row_spec(sibs));
        },
        _ => {},
    }
}

/// A command, once the selection is taken out, keeps the state well formed.
proof fn lemma_apply_wf(s: StateModel, c: Command, sel: Option<PathModel>, count: usize)
    requires
        state_wf(s),
        s.doc.selected is None,
        s.last_selected is None,
        match sel {
            Some(p) => valid_path(s.doc.boxes, p),
            None => true,
        },
    ensures
        state_wf(apply_spec(s, c, sel, count)),
{
    match c {
        Command::Undo => {
            if s.history.len() > 0 {
                assert(doc_wf(s.history[s.history.len() - 1]));
            }
        },
        Command::NewBox => {
            lemma_add_child_wf(s, sel);
        },
        Command::Quit => {},
        Command::ScrollBy(_) => {},
        _ => match sel {
            None => {},
            Some(p) => lemma_on_selection_wf(s, c, p, count),
        },
    }
}

/// Every command keeps the state well formed.
pub proof fn lemma_command_wf(s: StateModel, c: Command)
    requires
        state_wf(s),
        s.last_selected is None,
    ensures
        state_wf(reduce_spec(s, c)),
{
    let count: usize = match s.pending_count {
        Some(n) => n,
        None => 1,
    };
    let s1 = StateModel { pending_count: None, ..s };
    if depth_of(s1.doc.selected) < min_depth_spec(c) {
        return;
    }
    let s2 = if is_undoable_spec(c) {
        snapshot_spec(s1)
    } else {
        s1
    };
    assert(state_wf(s2));
    lemma_apply_wf(reselect(s2, None), c, s2.doc.selected, count);
}

/// Every command of insert mode keeps the state well formed.
pub proof fn lemma_insert_wf(s: StateModel, c: insert_mode::Command)
    requires
        state_wf(s),
        s.last_selected is None,
    ensures
        state_wf(insert_mode::reduce_spec(s, c)),
{
    match s.doc.selected {
        None => {},
        Some(p) => {
            let bs = s.doc.boxes;
            let n = node_at(bs, p);
            lemma_node_colour_ok(bs, p);
            let m = BoxModel { label: insert_mode::label_after(n.label, c), ..n };
            lemma_with_node_wf(bs, p, m);
            let relabelled = StateModel {
                doc: DocModel { boxes: with_node(bs, p, m), ..s.doc },
                ..s
            };
            assert(state_wf(relabelled));
            match c {
                insert_mode::Command::CommitAndAddChild => {
                    lemma_add_child_wf(snapshot_spec(relabelled), Some(p));
                },
                insert_mode::Command::Commit => {
                    let t = StateModel { mode: ModeModel::Command, ..relabelled };
                    assert(state_wf(t));
                    assert(state_wf(drop_unchanged_spec(t)));
                },
                _ => {},
            }
        },
    }
}

/// Every command of the save prompt keeps the state well formed.
pub proof fn lemma_save_wf(s: StateModel, c: save_prompt_mode::Command)
    requires
        state_wf(s),
    ensures
        state_wf(save_prompt_mode::reduce_spec(s, c)),
{
}

/// Every key that runs to its end keeps the state well formed.
pub proof fn lemma_handle_key_wf(s: StateModel, k: Seq<char>)
    requires
        state_wf(s),
        key_ok(s, k),
    ensures
        state_wf(handle_key_spec(s, k)),
{
    let s0 = restore_spec(s);
    lemma_restore_wf(s);
    match command_mode::parse_spec(k) {
        Some(Command::ScrollBy(d)) => {
            lemma_command_wf(s0, Command::ScrollBy(d));
        },
        _ => match s0.mode {
            ModeModel::Command => if is_digit_key(k) {
                let d = ((k[0] as nat) - 48) as nat;
                let v = next_count(s0.pending_count, d);
                if s0.colour_overlay && 1 <= v <= 7 {
                    match s0.doc.selected {
                        Some(p) => {
                            let n = node_at(s0.doc.boxes, p);
                            lemma_node_colour_ok(s0.doc.boxes, p);
                            let m = BoxModel { colour: Some((v - 1) as u8), ..n };
                            lemma_box_settings_ok(n, m);
                            lemma_with_node_wf(s0.doc.boxes, p, m);
                        },
                        None => {},
                    }
                }
            } else {
                match command_mode::parse_spec(k) {
                    Some(c) => lemma_command_wf(s0, c),
                    None => {},
                }
            },
            ModeModel::Insert => match insert_mode::parse_spec(k) {
                Some(c) => lemma_insert_wf(s0, c),
                None => {},
            },
            ModeModel::SavePrompt(_) => match save_prompt_mode::parse_spec(k) {
                Some(c) => lemma_save_wf(s0, c),
                None => {},
            },
        },
    }
}

/// No key turns the colour overlay on.
pub proof fn lemma_handle_key_keeps_overlay_off(s: StateModel, k: Seq<char>)
    requires
        !s.colour_overlay,
    ensures
        !handle_key_spec(s, k).colour_overlay,
{
}

/// Hiding the selection while idle keeps the state well formed.
pub proof fn lemma_hide_wf(s: StateModel)
    requires
        state_wf(s),
    ensures
        state_wf(hide_spec(s)),
{
}

} // verus!
