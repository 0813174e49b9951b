//! What the command line asks for, and where an export is written.
use vstd::prelude::*;

verus! {

/// Edit a diagram, from a file or from nothing, or export one as SVG.
#[derive(Debug, PartialEq)]
pub enum Command {
    Edit(Option<String>),
    Export { input: String },
}

pub enum CommandModel {
    Edit(Option<Seq<char>>),
    Export { input: Seq<char> },
}

impl View for Command {
    type V = CommandModel;

    open spec fn view(&self) -> CommandModel {
        match self {
            Command::Edit(Some(p)) => CommandModel::Edit(Some(p@)),
            Command::Edit(None) => CommandModel::Edit(None),
            Command::Export { input } => CommandModel::Export { input: input@ },
        }
    }
}

/// The flag that asks for an SVG export.
pub const SVG_FLAG: &'static str = "--svg";

/// The command for the arguments after the program's name: `--svg` and the
/// input to export (none reads as an empty path), else the file to edit, if
/// any.
pub open spec fn parse_args_spec(args: Seq<Seq<char>>) -> CommandModel {
    if args.len() == 0 {
        CommandModel::Edit(None)
    } else if args[0] == SVG_FLAG@ {
        CommandModel::Export {
            input: if args.len() > 1 {
                args[1]
            } else {
                Seq::empty()
            },
        }
    } else {
        CommandModel::Edit(Some(args[0]))
    }
}

pub open spec fn strings(args: Seq<String>) -> Seq<Seq<char>> {
    args.map_values(|a: String| a@)
}

fn is_svg_flag(arg: &String) -> (r: bool)
    ensures
        r == (arg@ == SVG_FLAG@),
{
    proof {
        reveal_strlit("--svg");
    }
    let t = arg.as_str();
    let n = t.unicode_len();
    if n != 5 {
        return false;
    }
    let same = t.get_char(0) == '-' && t.get_char(1) == '-' && t.get_char(2) == 's' && t.get_char(3)
        == 'v' && t.get_char(4) == 'g';
    if same {
        assert(arg@ =~= SVG_FLAG@);
    }
    same
}

/// Reads the command from the arguments after the program's name.
pub fn parse_args_from(args: Vec<String>) -> (r: Command)
    ensures
        r@ == parse_args_spec(strings(args@)),
{
    let mut args = args;
    if args.len() == 0 {
        return Command::Edit(None);
    }
    let ghost all = args@;
    let first = args.remove(0);
    if is_svg_flag(&first) {
        let input = if args.len() > 0 {
            args.remove(0)
        } else {
            String::new()
        };
        proof {
            assert(strings(all)[0] == all[0]@);
            if all.len() > 1 {
                assert(strings(all)[1] == all[1]@);
            }
        }
        Command::Export { input }
    } else {
        proof {
            assert(strings(all)[0] == all[0]@);
        }
        Command::Edit(Some(first))
    }
}

/// The path with its extension set, as `std::path::Path::with_extension`
/// makes it.
pub uninterp spec fn path_with_extension(path: Seq<char>, extension: Seq<char>) -> Seq<char>;

/// `std::path::Path::with_extension` on a path given as text: the result is
/// named, as a function of the two arguments alone. std panics on an
/// extension that holds a path separator, so none is admitted.
#[verifier::external_body]
fn with_extension(path: &str, extension: &str) -> (r: String)
    requires
        forall|i: int| 0 <= i < extension@.len() ==> extension@[i] != '/' && extension@[i] != '\\',
    ensures
        r@ == path_with_extension(path@, extension@),
{
    std::path::Path::new(path).with_extension(extension).to_string_lossy().into_owned()
}

/// The extension of an exported drawing.
pub const SVG_EXTENSION: &'static str = "svg";

/// Where an export of `input` is written: beside it, with `.svg` for its
/// extension.
pub fn output_path(input: &str) -> (r: String)
    ensures
        r@ == path_with_extension(input@, SVG_EXTENSION@),
{
    proof {
        reveal_strlit("svg");
    }
    with_extension(input, SVG_EXTENSION)
}

} // verus!
