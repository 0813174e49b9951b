//! Insert mode: keys type the selected box's label.
use vstd::prelude::*;
use crate::keymap::{KeyBinding, binding, bindings_view, markdown, table_spec};
use crate::diagram::{
    BoxModel, DocModel, Node, Path, PathModel, models, model, valid_path, node_at, with_node,
    blank_model, blank_box, replace_node, lemma_models, lemma_with_node_twice,
    lemma_with_node_valid, copy_path_opt, path_opt,
};
use crate::state::{
    State, StateModel, ModeModel, Mode, snapshot, snapshot_spec, add_child_box, add_child_spec,
    drop_snapshot_if_unchanged, drop_unchanged_spec,
};
use crate::text::{chars_of, string_of};

verus! {

/// A command of insert mode.
#[derive(Clone, Copy, PartialEq, Eq, Debug, Structural)]
pub enum Command {
    Commit,
    CommitAndAddChild,
    Backspace,
    Append(char),
}

/// A character that a label can hold: from space to tilde.
pub open spec fn printable(c: char) -> bool {
    '\x20' <= c && c <= '\x7e'
}

/// Escape commits, Enter commits and adds a child, Delete removes a
/// character, and a key that starts with a printable character types it.
pub open spec fn parse_spec(k: Seq<char>) -> Option<Command> {
    if k == seq!['\x1b'] {
        Some(Command::Commit)
    } else if k == seq!['\r'] {
        Some(Command::CommitAndAddChild)
    } else if k == seq!['\x7f'] {
        Some(Command::Backspace)
    } else if k.len() > 0 && printable(k[0]) {
        Some(Command::Append(k[0]))
    } else {
        None
    }
}

/// The command that a key runs in insert mode, if any.
pub fn parse_chars(k: &Vec<char>) -> (r: Option<Command>)
    ensures
        r == parse_spec(k@),
{
    proof {
        assert(k@.len() == 1 ==> k@ =~= seq![k@[0]]);
    }
    if k.len() == 1 && k[0] == '\x1b' {
        Some(Command::Commit)
    } else if k.len() == 1 && k[0] == '\r' {
        Some(Command::CommitAndAddChild)
    } else if k.len() == 1 && k[0] == '\x7f' {
        Some(Command::Backspace)
    } else if k.len() > 0 && '\x20' <= k[0] && k[0] <= '\x7e' {
        Some(Command::Append(k[0]))
    } else {
        None
    }
}

/// The command that a key runs in insert mode, if any.
pub fn parse(key: &str) -> (r: Option<Command>)
    ensures
        r == parse_spec(key@),
{
    parse_chars(&chars_of(key))
}

/// The text without its last `n` characters (empty when it is shorter).
pub open spec fn drop_last_spec(s: Seq<char>, n: nat) -> Seq<char> {
    if s.len() >= n {
        s.take(s.len() - n)
    } else {
        Seq::empty()
    }
}

/// What a label becomes under a command (the label ends with the pad while it is typed).
pub open spec fn label_after(label: Seq<char>, c: Command) -> Seq<char> {
    match c {
        Command::Commit | Command::CommitAndAddChild => drop_last_spec(label, 1),
        Command::Backspace => drop_last_spec(label, 2).push(' '),
        Command::Append(ch) => drop_last_spec(label, 1).push(ch).push(' '),
    }
}

/// What a command does in insert mode, to the selected box.
pub open spec fn reduce_spec(s: StateModel, c: Command) -> StateModel {
    match s.doc.selected {
        None => s,
        Some(p) => {
            let n = node_at(s.doc.boxes, p);
            let relabelled = StateModel {
                doc: DocModel {
                    boxes: with_node(s.doc.boxes, p, BoxModel { label: label_after(n.label, c), ..n }),
                    ..s.doc
                },
                ..s
            };
            match c {
                Command::Commit => drop_unchanged_spec(
                    StateModel { mode: ModeModel::Command, ..relabelled },
                ),
                Command::CommitAndAddChild => add_child_spec(snapshot_spec(relabelled), Some(p)),
                _ => relabelled,
            }
        },
    }
}

fn relabel(label: &String, c: Command) -> (r: String)
    ensures
        r@ == label_after(label@, c),
{
    let mut v = chars_of(label.as_str());
    let n = v.len();
    match c {
        Command::Commit | Command::CommitAndAddChild => {
            v.truncate(if n >= 1 { n - 1 } else { 0 });
        },
        Command::Backspace => {
            v.truncate(if n >= 2 { n - 2 } else { 0 });
            v.push(' ');
        },
        Command::Append(ch) => {
            v.truncate(if n >= 1 { n - 1 } else { 0 });
            v.push(ch);
            v.push(' ');
        },
    }
    let r = string_of(&v);
    proof {
        assert(r@ =~= label_after(label@, c));
    }
    r
}

/// Runs a command in insert mode.
pub fn reduce(state: State, command: Command) -> (r: State)
    requires
        match state@.doc.selected {
            Some(p) => valid_path(state@.doc.boxes, p),
            None => true,
        },
    ensures
        r@ == reduce_spec(state@, command),
{
    let ghost s = state@;
    let mut state = state;
    let path = match copy_path_opt(&state.doc.selected) {
        Some(path) => path,
        None => return state,
    };
    let ghost p = path@;
    let mut n = replace_node(&mut state.doc.boxes, &path, blank_box());
    proof {
        lemma_with_node_valid(s.doc.boxes, p, blank_model(), p);
    }
    let ghost taken = model(n);
    n.label = relabel(&n.label, command);
    proof {
        assert(model(n) =~= BoxModel { label: label_after(taken.label, command), ..taken });
    }
    replace_node(&mut state.doc.boxes, &path, n);
    proof {
        lemma_with_node_twice(s.doc.boxes, p, blank_model(), model(n));
    }
    let ghost relabelled = state@;
    proof {
        assert(relabelled =~= StateModel {
            doc: DocModel {
                boxes: with_node(s.doc.boxes, p, BoxModel { label: label_after(taken.label, command), ..taken }),
                ..s.doc
            },
            ..s
        });
    }
    match command {
        Command::Commit => {
            state.mode = Mode::Command;
            proof {
                assert(state@ =~= StateModel { mode: ModeModel::Command, ..relabelled });
            }
            drop_snapshot_if_unchanged(state)
        },
        Command::CommitAndAddChild => {
            proof {
                lemma_with_node_valid(s.doc.boxes, p, model(n), p);
            }
            add_child_box(snapshot(state), Some(path))
        },
        _ => state,
    }
}

/// The named keys of insert mode and what each does; any printable
/// character types itself.
pub open spec fn insert_keymap_spec() -> Seq<(Seq<Seq<char>>, Command, Seq<char>)> {
    seq![
        (seq!["Enter"@], Command::CommitAndAddChild, "Finish the box and add a child box"@),
        (seq!["Esc"@], Command::Commit, "Switch to command mode"@),
        (seq!["Backspace"@], Command::Backspace, "Remove the last character"@),
    ]
}

/// The named keys of insert mode and what each does.
pub fn insert_keymap() -> (r: Vec<KeyBinding<Command>>)
    ensures
        bindings_view(r@) == insert_keymap_spec(),
{
    let mut r: Vec<KeyBinding<Command>> = Vec::new();
    r.push(binding("Enter", Command::CommitAndAddChild, "Finish the box and add a child box"));
    r.push(binding("Esc", Command::Commit, "Switch to command mode"));
    r.push(binding("Backspace", Command::Backspace, "Remove the last character"));
    proof {
        assert(bindings_view(r@) =~= insert_keymap_spec());
    }
    r
}

/// The table of insert mode's keys, as the README shows it.
pub fn format_keymap_markdown() -> (r: String)
    ensures
        r@ == table_spec(insert_keymap_spec()),
{
    markdown(&insert_keymap())
}

} // verus!
