use dre::cli::{output_path, parse_args_from, Command};
use dre::filesystem::{invalid, missing};

fn parse(args: &[&str]) -> Command {
    parse_args_from(args.iter().map(|s| s.to_string()).collect())
}

#[test]
fn no_arguments_yields_edit_without_a_file() {
    assert_eq!(parse(&[]), Command::Edit(None));
}

#[test]
fn a_plain_argument_yields_edit_for_that_file() {
    assert_eq!(parse(&["x.dre"]), Command::Edit(Some("x.dre".to_string())));
}

#[test]
fn an_svg_flag_yields_export_with_the_input() {
    assert_eq!(parse(&["--svg", "diagram.dre"]), Command::Export { input: "diagram.dre".to_string() });
}

#[test]
fn an_svg_flag_without_an_input_exports_an_empty_path() {
    assert_eq!(parse(&["--svg"]), Command::Export { input: String::new() });
}

#[test]
fn arguments_after_the_file_are_ignored() {
    assert_eq!(parse(&["a.dre", "b.dre"]), Command::Edit(Some("a.dre".to_string())));
}

#[test]
fn output_path_swaps_the_dre_extension_for_svg() {
    assert_eq!(output_path("x.dre"), "x.svg");
}

#[test]
fn output_path_appends_svg_to_an_extensionless_path() {
    assert_eq!(output_path("report"), "report.svg");
}

#[test]
fn output_path_keeps_the_directory() {
    assert_eq!(output_path("docs/plans.dre"), "docs/plans.svg");
}

#[test]
fn missing_says_there_is_no_such_file() {
    assert_eq!(missing("x.dre"), "no such file: x.dre");
}

#[test]
fn invalid_says_the_file_is_not_a_diagram() {
    assert_eq!(invalid("x.dre"), "x.dre: not a valid diagram");
}
