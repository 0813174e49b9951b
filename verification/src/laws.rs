//! What holds across the editor's operations, whatever the diagram.
use vstd::prelude::*;
use crate::command_mode::{self, Command, depth_of, is_undoable_spec, min_depth_spec};
use crate::composer::{Area, fixed_total, unsized_count, rows_of, row_of, trunc_div, trunc_rem};
use crate::diagram::{BoxModel, DocModel};
use crate::editor::{follow_spec, overflow_spec, selected_edges_spec};
use crate::file_document::{opened, opened_all, saved, saved_all};
use crate::kitty::{chunks_spec, encode_spec, escape_spec, header_spec, more_spec, tail_escapes, transmission_spec, CHUNK_SIZE};
use crate::text::decimal;
use crate::save_prompt_mode::{self, extension};
use crate::state::{
    ModeModel, StateModel, handle_key_spec, hide_spec, key_ok, reduce_spec, restore_spec, INTERRUPT,
};

verus! {

/// Undo takes back a change: after any command that records the document
/// for undo, undo gives back the document as it was before the command.
pub proof fn law_undo_restores_document(s: StateModel, c: Command)
    requires
        is_undoable_spec(c),
        depth_of(s.doc.selected) >= min_depth_spec(c),
        s.pending_count is None,
    ensures
        command_mode::reduce_spec(command_mode::reduce_spec(s, c), Command::Undo).doc == s.doc,
{
}

/// The state after running commands one after another in command mode.
pub open spec fn run_commands(s: StateModel, cs: Seq<Command>) -> StateModel
    decreases cs.len(),
{
    if cs.len() == 0 {
        s
    } else {
        command_mode::reduce_spec(run_commands(s, cs.drop_last()), cs.last())
    }
}

/// The state after pressing undo `k` times.
pub open spec fn undo_times(s: StateModel, k: nat) -> StateModel
    decreases k,
{
    if k == 0 {
        s
    } else {
        command_mode::reduce_spec(undo_times(s, (k - 1) as nat), Command::Undo)
    }
}

/// A command that moves the selection or scrolls the view.
pub open spec fn is_move(c: Command) -> bool {
    c is SelectParent || c is SelectChild || c is SelectNext || c is SelectPrevious || c is ScrollBy
}

/// Whether a command, run on `s`, records the document for undo: it is
/// undoable and finds the selection deep enough to run.
pub open spec fn records(s: StateModel, c: Command) -> bool {
    is_undoable_spec(c) && depth_of(s.doc.selected) >= min_depth_spec(c)
}

/// Every command is undoable or moves the selection or the view.
pub open spec fn changes_and_moves(cs: Seq<Command>) -> bool {
    forall|i: int| 0 <= i < cs.len() ==> is_undoable_spec(#[trigger] cs[i]) || is_move(cs[i])
}

/// The documents as each recording command found them, in order; the moves
/// between them record nothing, but the selection they leave is part of the
/// next document recorded.
pub open spec fn docs_before(s: StateModel, cs: Seq<Command>) -> Seq<DocModel>
    decreases cs.len(),
{
    if cs.len() == 0 {
        Seq::empty()
    } else {
        let t = run_commands(s, cs.drop_last());
        if records(t, cs.last()) {
            docs_before(s, cs.drop_last()).push(t.doc)
        } else {
            docs_before(s, cs.drop_last())
        }
    }
}

proof fn lemma_recorded(s: StateModel, cs: Seq<Command>)
    requires
        changes_and_moves(cs),
    ensures
        run_commands(s, cs).history == s.history + docs_before(s, cs),
    decreases cs.len(),
{
    if cs.len() == 0 {
        assert(s.history + Seq::<DocModel>::empty() =~= s.history);
    } else {
        let d = cs.drop_last();
        assert(changes_and_moves(d)) by {
            assert forall|i: int| 0 <= i < d.len() implies is_undoable_spec(#[trigger] d[i]) || is_move(
                d[i],
            ) by {
                assert(d[i] == cs[i]);
            }
        }
        lemma_recorded(s, d);
        let t = run_commands(s, d);
        let c = cs.last();
        assert(is_undoable_spec(c) || is_move(c)) by {
            assert(c == cs[cs.len() - 1]);
        }
        if records(t, c) {
            assert(command_mode::reduce_spec(t, c).history == t.history.push(t.doc));
            assert(s.history + docs_before(s, d).push(t.doc) =~= (s.history + docs_before(s, d)).push(
                t.doc,
            ));
        } else {
            assert(command_mode::reduce_spec(t, c).history == t.history);
        }
    }
}

proof fn lemma_first_doc(s: StateModel, cs: Seq<Command>)
    requires
        cs.len() > 0,
        records(s, cs[0]),
    ensures
        docs_before(s, cs).len() > 0,
        docs_before(s, cs)[0] == s.doc,
    decreases cs.len(),
{
    let d = cs.drop_last();
    if cs.len() == 1 {
        assert(d =~= Seq::<Command>::empty());
        assert(cs.last() == cs[0]);
        assert(docs_before(s, d) =~= Seq::<DocModel>::empty());
    } else {
        assert(d[0] == cs[0]);
        lemma_first_doc(s, d);
    }
}

proof fn lemma_undo_times(t: StateModel, base: Seq<DocModel>, stack: Seq<DocModel>, j: nat)
    requires
        t.history == base + stack,
        j <= stack.len(),
    ensures
        undo_times(t, j).history == base + stack.take(stack.len() - j),
        j > 0 ==> undo_times(t, j).doc == stack[stack.len() - j],
    decreases j,
{
    if j == 0 {
        assert(stack.take(stack.len() as int) =~= stack);
    } else {
        lemma_undo_times(t, base, stack, (j - 1) as nat);
        let u = undo_times(t, (j - 1) as nat);
        let rest = stack.take(stack.len() - (j - 1));
        assert((base + rest).last() == stack[stack.len() - j]);
        assert((base + rest).drop_last() =~= base + stack.take(stack.len() - j));
    }
}

proof fn lemma_undo_keeps_view(t: StateModel, j: nat)
    ensures
        undo_times(t, j).scroll_x == t.scroll_x,
        undo_times(t, j).mode == t.mode,
        undo_times(t, j).running == t.running,
    decreases j,
{
    if j > 0 {
        lemma_undo_keeps_view(t, (j - 1) as nat);
    }
}

/// Undo walks back through every change, moves between them included: after
/// any run of commands that each change the diagram or move the selection or
/// the view, the `i`-th undo gives back the document as the `i`-th change
/// from the end found it, selection and all; as many undos as changes give
/// back the undo history from before the run, and the document from before
/// it when the run starts with a change; one more then changes
/// nothing when that history was empty. Undo never scrolls, switches mode or
/// stops the editor.
pub proof fn law_undo_walks_back_every_change(s: StateModel, cs: Seq<Command>)
    requires
        changes_and_moves(cs),
    ensures
        ({
            let t = run_commands(s, cs);
            let d = docs_before(s, cs);
            &&& forall|i: nat| 1 <= i <= d.len() ==> #[trigger] undo_times(t, i).doc == d[d.len() - i]
            &&& undo_times(t, d.len()).history == s.history
            &&& (cs.len() > 0 && records(s, cs[0])) ==> undo_times(t, d.len()).doc == s.doc
            &&& s.history.len() == 0 ==> undo_times(t, d.len() + 1).doc == undo_times(t, d.len()).doc
            &&& forall|i: nat|
                #![trigger undo_times(t, i)]
                undo_times(t, i).scroll_x == t.scroll_x && undo_times(t, i).mode == t.mode
                    && undo_times(t, i).running == t.running
        }),
{
    let t = run_commands(s, cs);
    let d = docs_before(s, cs);
    lemma_recorded(s, cs);
    assert forall|i: nat| 1 <= i <= d.len() implies #[trigger] undo_times(t, i).doc == d[d.len() - i] by {
        lemma_undo_times(t, s.history, d, i);
    }
    lemma_undo_times(t, s.history, d, d.len());
    if cs.len() > 0 && records(s, cs[0]) {
        lemma_first_doc(s, cs);
    }
    assert(d.take(0) =~= Seq::<DocModel>::empty());
    assert(s.history + Seq::<DocModel>::empty() =~= s.history);
    assert forall|i: nat|
        #![trigger undo_times(t, i)]
        undo_times(t, i).scroll_x == t.scroll_x && undo_times(t, i).mode == t.mode && undo_times(
            t,
            i,
        ).running == t.running by {
        lemma_undo_keeps_view(t, i);
    }
}

/// The box keys change the selected box alone, keep it selected, and record
/// the document for undo: `c` moves its colour one step round the palette
/// cycle, `r` flips its corners, and `F` on a single box flips its fill when
/// it has a colour and leaves it be when it has none.
pub proof fn law_box_keys_change_the_selected_box(s: StateModel, c: Command)
    requires
        s.doc.selected is Some,
        c is CycleColour || c is ToggleRounded || c is ToggleFill,
    ensures
        ({
            let p = s.doc.selected->0;
            let n = crate::diagram::node_at(s.doc.boxes, p);
            let t = command_mode::reduce_spec(s, c);
            &&& t.doc.selected == Some(p)
            &&& t.history == s.history.push(s.doc)
            &&& t.pending_count is None
            &&& t.mode == s.mode
            &&& t.doc.boxes == crate::diagram::with_node(
                s.doc.boxes,
                p,
                if c is CycleColour {
                    BoxModel { colour: crate::palette::next_on_palette_spec(n.colour), ..n }
                } else if c is ToggleRounded {
                    BoxModel { rounded: !n.rounded, ..n }
                } else if n.colour is None {
                    n
                } else {
                    BoxModel { filled: !n.filled, ..n }
                },
            ) || (c is ToggleFill && n.colour is None && t.doc.boxes == s.doc.boxes)
        }),
{
}

/// Moving the selection or scrolling the view leaves the boxes and what
/// undo remembers as they were.
pub proof fn law_moving_keeps_boxes(s: StateModel, c: Command)
    requires
        c is SelectParent || c is SelectChild || c is SelectNext || c is SelectPrevious
            || c is ScrollBy,
    ensures
        command_mode::reduce_spec(s, c).doc.boxes == s.doc.boxes,
        command_mode::reduce_spec(s, c).history == s.history,
{
}

/// A name confirmed at the save prompt is saved under a name that ends in
/// `.dre`, and the editor stops.
pub proof fn law_confirmed_name_ends_in_extension(s: StateModel)
    requires
        s.mode is SavePrompt,
    ensures
        ({
            let t = save_prompt_mode::reduce_spec(s, save_prompt_mode::Command::Confirm);
            &&& !t.running
            &&& t.save_to matches Some(f) && f.len() >= 4 && f.skip(f.len() - 4) == extension()
        }),
{
    let f = s.mode->SavePrompt_0;
    let g = save_prompt_mode::with_extension_spec(f);
    if !(f.len() >= 4 && f.skip(f.len() - 4) == extension()) {
        assert(g.skip(g.len() - 4) =~= extension());
    }
}

/// Quitting a diagram that has a file saves to that file and stops; a new
/// file left empty is not written at all.
pub proof fn law_quit_keeps_the_file(s: StateModel)
    requires
        s.save_to is Some,
    ensures
        !command_mode::reduce_spec(s, Command::Quit).running,
        command_mode::reduce_spec(s, Command::Quit).save_to == (if s.new_file && s.doc.boxes.len()
            == 0 {
            None
        } else {
            s.save_to
        }),
{
}

/// Ctrl-C stops the editor with nothing to save, in every mode.
pub proof fn law_interrupt_saves_nothing(s: StateModel)
    ensures
        !reduce_spec(s, Some(INTERRUPT@)).running,
        reduce_spec(s, Some(INTERRUPT@)).save_to is None,
        reduce_spec(s, Some(INTERRUPT@)).doc == s.doc,
{
}

/// An idle second changes nothing that a key sees: the next key does
/// what it would have done without the pause, the hidden selection back,
/// and it runs after the pause exactly when it runs without one.
pub proof fn law_idle_then_key(s: StateModel, k: Seq<char>)
    requires
        s.last_selected is None,
    ensures
        handle_key_spec(hide_spec(s), k) == handle_key_spec(s, k),
        key_ok(hide_spec(s), k) == key_ok(s, k),
        reduce_spec(reduce_spec(s, None), Some(k)) == reduce_spec(s, Some(k)) || k == INTERRUPT@,
{
    assert(restore_spec(hide_spec(s)) == s);
}

/// When keeping the selected box in view scrolls, its right edge ends on
/// the last of the `cols` columns.
pub proof fn law_follow_lands_on_last_column(s: StateModel, cols: int)
    requires
        s.last_selected is None,
        follow_spec(s, cols).scroll_x != s.scroll_x,
    ensures
        selected_edges_spec(s.doc) matches Some((_, right)) && right - follow_spec(s, cols).scroll_x
            == cols - 1,
{
}

/// A box as the editor has it after a save and an open: a fill is kept only
/// on a coloured box, and no hint survives.
pub open spec fn kept(b: BoxModel) -> BoxModel
    decreases b,
{
    BoxModel {
        filled: b.filled && b.colour is Some,
        hint: false,
        children: kept_all(b.children),
        ..b
    }
}

pub open spec fn kept_all(bs: Seq<BoxModel>) -> Seq<BoxModel>
    decreases bs,
{
    if bs.len() == 0 {
        Seq::empty()
    } else {
        kept_all(bs.drop_last()).push(kept(bs.last()))
    }
}

proof fn lemma_opened_saved(b: BoxModel)
    ensures
        opened(saved(b)) == kept(b),
    decreases b,
{
    lemma_opened_saved_all(b.children);
    assert(opened(saved(b)) =~= kept(b));
}

proof fn lemma_opened_saved_all(bs: Seq<BoxModel>)
    ensures
        opened_all(saved_all(bs)) == kept_all(bs),
    decreases bs,
{
    if bs.len() > 0 {
        lemma_opened_saved_all(bs.drop_last());
        lemma_opened_saved(bs.last());
        let s = saved_all(bs);
        assert(s.drop_last() =~= saved_all(bs.drop_last()));
        assert(opened_all(s) =~= kept_all(bs));
    } else {
        assert(opened_all(saved_all(bs)) =~= kept_all(bs));
    }
}

/// Saving a diagram and opening the file again gives back every label,
/// colour, rounding and nesting; a fill comes back on the coloured boxes.
pub proof fn law_save_then_open(bs: Seq<BoxModel>)
    ensures
        opened_all(saved_all(bs)) == kept_all(bs),
{
    lemma_opened_saved_all(bs);
}

pub open spec fn joined(cs: Seq<Seq<char>>) -> Seq<char>
    decreases cs.len(),
{
    if cs.len() == 0 {
        Seq::empty()
    } else {
        cs[0] + joined(cs.drop_first())
    }
}

/// The pieces an image is sent in join back into the whole, and none is
/// longer than a piece may be.
pub proof fn law_chunks_rejoin(p: Seq<char>, n: nat)
    requires
        n > 0,
    ensures
        joined(chunks_spec(p, n)) == p,
        forall|i: int| 0 <= i < chunks_spec(p, n).len() ==> #[trigger] chunks_spec(p, n)[i].len() <= n,
    decreases p.len(),
{
    if p.len() == 0 {
        assert(p =~= Seq::<char>::empty());
    } else if p.len() <= n {
        let cs = chunks_spec(p, n);
        assert(cs.drop_first() =~= Seq::<Seq<char>>::empty());
        assert(joined(cs.drop_first()) =~= Seq::<char>::empty());
        assert(cs[0] == p);
        assert(joined(cs) == cs[0] + joined(cs.drop_first()));
        assert(p + Seq::<char>::empty() =~= p);
    } else {
        law_chunks_rejoin(p.skip(n as int), n);
        let cs = chunks_spec(p, n);
        assert(cs.drop_first() =~= chunks_spec(p.skip(n as int), n));
        assert(p.take(n as int) + p.skip(n as int) =~= p);
        assert(cs[0] == p.take(n as int));
        assert(joined(cs) == cs[0] + joined(cs.drop_first()));
        assert forall|i: int| 0 <= i < cs.len() implies #[trigger] cs[i].len() <= n by {
            if i > 0 {
                assert(cs[i] == chunks_spec(p.skip(n as int), n)[i - 1]);
            }
        }
    }
}

proof fn lemma_joined_push(a: Seq<Seq<char>>, x: Seq<char>)
    ensures
        joined(a.push(x)) == joined(a) + x,
    decreases a.len(),
{
    if a.len() == 0 {
        assert(a.push(x).drop_first() =~= Seq::<Seq<char>>::empty());
        assert(a.push(x)[0] == x);
        assert(joined(a.push(x)) == x + joined(Seq::<Seq<char>>::empty()));
        assert(joined(a) + x =~= x + Seq::<char>::empty());
    } else {
        lemma_joined_push(a.drop_first(), x);
        assert(a.push(x).drop_first() =~= a.drop_first().push(x));
        assert(joined(a.push(x)) =~= joined(a) + x);
    }
}

/// The keys of the `k`-th piece of a picture: the picture's own keys on the
/// first, and on every piece whether more follow.
pub open spec fn piece_keys(cs: Seq<Seq<char>>, width: int, height: int, k: int) -> Seq<char> {
    if k == 0 {
        header_spec(width, height, more_spec(cs.len() as int, 0))
    } else {
        "m="@ + decimal(more_spec(cs.len() as int, k) as nat)
    }
}

/// One escape sequence for each piece, with its keys.
pub open spec fn piece_escapes(cs: Seq<Seq<char>>, width: int, height: int) -> Seq<Seq<char>> {
    Seq::new(cs.len(), |k: int| escape_spec(piece_keys(cs, width, height, k), cs[k]))
}

proof fn lemma_tail(cs: Seq<Seq<char>>, width: int, height: int, k: int)
    requires
        1 <= k <= cs.len(),
    ensures
        escape_spec(header_spec(width, height, more_spec(cs.len() as int, 0)), cs[0]) + tail_escapes(cs, k)
            == joined(piece_escapes(cs, width, height).take(k)),
    decreases k,
{
    let es = piece_escapes(cs, width, height);
    let first = escape_spec(header_spec(width, height, more_spec(cs.len() as int, 0)), cs[0]);
    if k == 1 {
        assert(es.take(1) =~= Seq::<Seq<char>>::empty().push(es[0]));
        lemma_joined_push(Seq::empty(), es[0]);
        assert(joined(Seq::<Seq<char>>::empty()) =~= Seq::<char>::empty());
        assert(first + tail_escapes(cs, 1) =~= first);
        assert(Seq::<char>::empty() + es[0] =~= es[0]);
    } else {
        lemma_tail(cs, width, height, k - 1);
        assert(es.take(k) =~= es.take(k - 1).push(es[k - 1]));
        lemma_joined_push(es.take(k - 1), es[k - 1]);
        assert(first + tail_escapes(cs, k) =~= first + tail_escapes(cs, k - 1) + es[k - 1]);
    }
}

/// A picture goes to the terminal as one escape sequence per piece of its
/// encoded pixels, in order: the first carries the picture's size and
/// format, every piece but the last says that more follow and the last says
/// that none do, and the pieces join back into the encoded pixels.
pub proof fn law_transmission_pieces(pixels: Seq<u8>, width: int, height: int)
    ensures
        ({
            let p = encode_spec(pixels);
            let cs = chunks_spec(p, CHUNK_SIZE as nat);
            &&& joined(cs) == p
            &&& forall|k: int| 0 <= k < cs.len() ==> #[trigger] more_spec(cs.len() as int, k) == if k
                == cs.len() - 1 {
                0int
            } else {
                1int
            }
            &&& p.len() > 0 ==> transmission_spec(pixels, width, height) == joined(
                piece_escapes(cs, width, height),
            )
        }),
{
    let p = encode_spec(pixels);
    let cs = chunks_spec(p, CHUNK_SIZE as nat);
    law_chunks_rejoin(p, CHUNK_SIZE as nat);
    if p.len() > 0 {
        assert(cs.len() > 0);
        lemma_tail(cs, width, height, cs.len() as int);
        assert(piece_escapes(cs, width, height).take(cs.len() as int) =~= piece_escapes(cs, width, height));
    }
}

/// Where each area of a stack starts: below the fixed heights before it and
/// an even share of what they leave for each sharing area before it, the
/// first sharing areas taking one row more each while the leftover rows
/// last.
pub proof fn law_stack_rows(hs: Seq<Option<i64>>, window: Area, i: int)
    requires
        0 <= i <= hs.len(),
        unsized_count(hs) > 0,
        0 <= window.rows - fixed_total(hs),
    ensures
        row_of(hs, window, i) == window.row + fixed_total(hs.take(i)) + unsized_count(hs.take(i))
            * trunc_div(window.rows - fixed_total(hs), unsized_count(hs)) + if unsized_count(
            hs.take(i),
        ) < trunc_rem(window.rows - fixed_total(hs), unsized_count(hs)) {
            unsized_count(hs.take(i))
        } else {
            trunc_rem(window.rows - fixed_total(hs), unsized_count(hs))
        },
    decreases i,
{
    let left = window.rows - fixed_total(hs);
    let u = unsized_count(hs);
    let q = trunc_div(left, u);
    let r = trunc_rem(left, u);
    if i == 0 {
        assert(hs.take(0) =~= Seq::<Option<i64>>::empty());
        assert(fixed_total(hs.take(0)) == 0);
        assert(unsized_count(hs.take(0)) == 0);
        assert(0 * q == 0);
        assert(r >= 0) by {
            assert(trunc_rem(left, u) == left % u);
        }
    } else {
        law_stack_rows(hs, window, i - 1);
        let t = hs.take(i - 1);
        assert(hs.take(i).drop_last() =~= t);
        assert(hs.take(i).last() == hs[i - 1]);
        let a = unsized_count(t);
        assert((a + 1) * q == a * q + q) by (nonlinear_arith);
    }
}

proof fn lemma_unsized_bounds(hs: Seq<Option<i64>>, i: int)
    requires
        0 <= i <= hs.len(),
    ensures
        0 <= unsized_count(hs.take(i)) <= unsized_count(hs),
    decreases hs.len(),
{
    if i < hs.len() {
        assert(hs.take(i) =~= hs.drop_last().take(i));
        lemma_unsized_bounds(hs.drop_last(), i);
    } else {
        assert(hs.take(i) =~= hs);
        lemma_unsized_nonneg(hs);
    }
}

proof fn lemma_unsized_nonneg(hs: Seq<Option<i64>>)
    ensures
        unsized_count(hs) >= 0,
    decreases hs.len(),
{
    if hs.len() > 0 {
        lemma_unsized_nonneg(hs.drop_last());
    }
}

/// The areas of a stack tile the window: when the fixed heights leave room
/// and some area shares it, the last area ends on the window's bottom row.
pub proof fn law_stack_fills_the_window(hs: Seq<Option<i64>>, window: Area)
    requires
        unsized_count(hs) > 0,
        0 <= window.rows - fixed_total(hs),
    ensures
        row_of(hs, window, hs.len() as int) == window.row + window.rows,
{
    let left = window.rows - fixed_total(hs);
    let u = unsized_count(hs);
    law_stack_rows(hs, window, hs.len() as int);
    assert(hs.take(hs.len() as int) =~= hs);
    assert(trunc_div(left, u) == left / u);
    assert(trunc_rem(left, u) == left % u);
    assert(u * (left / u) + left % u == left) by (nonlinear_arith)
        requires
            u > 0,
    ;
    assert(left % u < u) by (nonlinear_arith)
        requires
            u > 0,
    ;
}

} // verus!
