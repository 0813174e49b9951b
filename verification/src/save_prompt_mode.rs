//! The save prompt: keys type the name of the file to save to.
use vstd::prelude::*;
use crate::state::{State, StateModel, ModeModel, Mode};
use crate::text::{chars_of, string_of, push_str};
use crate::insert_mode::printable;

verus! {

/// A command of the save prompt.
#[derive(Clone, Copy, PartialEq, Eq, Debug, Structural)]
pub enum Command {
    Confirm,
    Cancel,
    Backspace,
    Append(char),
}

/// Enter confirms, Escape cancels, Delete removes a character, and a key
/// that starts with a printable character types it.
pub open spec fn parse_spec(k: Seq<char>) -> Option<Command> {
    if k == seq!['\r'] {
        Some(Command::Confirm)
    } else if k == seq!['\x1b'] {
        Some(Command::Cancel)
    } else if k == seq!['\x7f'] {
        Some(Command::Backspace)
    } else if k.len() > 0 && printable(k[0]) {
        Some(Command::Append(k[0]))
    } else {
        None
    }
}

/// The command that a key runs at the save prompt, if any.
pub fn parse_chars(k: &Vec<char>) -> (r: Option<Command>)
    ensures
        r == parse_spec(k@),
{
    proof {
        assert(k@.len() == 1 ==> k@ =~= seq![k@[0]]);
    }
    if k.len() == 1 && k[0] == '\r' {
        Some(Command::Confirm)
    } else if k.len() == 1 && k[0] == '\x1b' {
        Some(Command::Cancel)
    } else if k.len() == 1 && k[0] == '\x7f' {
        Some(Command::Backspace)
    } else if k.len() > 0 && '\x20' <= k[0] && k[0] <= '\x7e' {
        Some(Command::Append(k[0]))
    } else {
        None
    }
}

/// The command that a key runs at the save prompt, if any.
pub fn parse(key: &str) -> (r: Option<Command>)
    ensures
        r == parse_spec(key@),
{
    parse_chars(&chars_of(key))
}

/// What a diagram file's name ends with.
pub const EXTENSION: &'static str = ".dre";

/// The extension of diagram files.
pub open spec fn extension() -> Seq<char> {
    seq!['.', 'd', 'r', 'e']
}

/// A file name that ends with the extension stays; another gets it appended.
pub open spec fn with_extension_spec(f: Seq<char>) -> Seq<char> {
    if f.len() >= 4 && f.skip(f.len() - 4) == extension() {
        f
    } else {
        f + extension()
    }
}

/// The file name with the diagram extension, added when it is missing.
pub fn with_extension(filename: &String) -> (r: String)
    ensures
        r@ == with_extension_spec(filename@),
{
    let v = chars_of(filename.as_str());
    let n = v.len();
    let ends_right = n >= 4 && v[n - 4] == '.' && v[n - 3] == 'd' && v[n - 2] == 'r' && v[n - 1] == 'e';
    proof {
        if ends_right {
            assert(v@.skip(n - 4) =~= extension());
        }
        if n >= 4 && v@.skip(n - 4) == extension() {
            assert(v@.skip(n - 4)[0] == v@[n - 4]);
            assert(v@.skip(n - 4)[1] == v@[n - 3]);
            assert(v@.skip(n - 4)[2] == v@[n - 2]);
            assert(v@.skip(n - 4)[3] == v@[n - 1]);
        }
    }
    let mut r = string_of(&v);
    if !ends_right {
        push_str(&mut r, ".dre");
        proof {
            reveal_strlit(".dre");
            assert(".dre"@ =~= extension());
        }
    }
    r
}

/// What a command does at the save prompt.
pub open spec fn reduce_spec(s: StateModel, c: Command) -> StateModel {
    match s.mode {
        ModeModel::SavePrompt(f) => match c {
            Command::Confirm => StateModel { save_to: Some(with_extension_spec(f)), running: false, ..s },
            Command::Cancel => StateModel { running: false, ..s },
            Command::Backspace => StateModel {
                mode: ModeModel::SavePrompt(
                    if f.len() > 0 {
                        f.drop_last()
                    } else {
                        f
                    },
                ),
                ..s
            },
            Command::Append(ch) => StateModel { mode: ModeModel::SavePrompt(f.push(ch)), ..s },
        },
        _ => s,
    }
}

/// Runs a command at the save prompt.
pub fn reduce(state: State, command: Command) -> (r: State)
    ensures
        r@ == reduce_spec(state@, command),
{
    let ghost s = state@;
    let mut state = state;
    let filename = match &state.mode {
        Mode::SavePrompt { filename } => filename.clone(),
        _ => return state,
    };
    match command {
        Command::Confirm => {
            state.save_to = Some(with_extension(&filename));
            state.running = false;
        },
        Command::Cancel => {
            state.running = false;
        },
        Command::Backspace => {
            let mut v = chars_of(filename.as_str());
            v.pop();
            state.mode = Mode::SavePrompt { filename: string_of(&v) };
            proof {
                assert(v@ =~= (if filename@.len() > 0 { filename@.drop_last() } else { filename@ }));
            }
        },
        Command::Append(c) => {
            let mut f = filename;
            crate::text::push_char(&mut f, c);
            state.mode = Mode::SavePrompt { filename: f };
        },
    }
    proof {
        assert(state@ =~= reduce_spec(s, command));
    }
    state
}

} // verus!
