use mdview::cli::{
    choose_input, parse_args, parse_width, print_width, use_colors, use_pager, ArgError, CliOptions,
    InputChoice,
};
use mdview::parse::render_markdown;
use mdview::screen::render_output;

fn args(a: &[&str]) -> Vec<String> {
    a.iter().map(|s| s.to_string()).collect()
}

fn parsed(a: &[&str]) -> CliOptions {
    match parse_args(&args(a)) {
        Ok(o) => o,
        Err(e) => panic!("refused: {}", e.message()),
    }
}

#[test]
fn no_arguments() {
    let o = parsed(&[]);
    assert!(o.input.is_none());
    assert!(!o.no_colors && !o.force_color && !o.help);
    assert!(o.width.is_none());
}

#[test]
fn options_and_input_in_any_order() {
    let o = parsed(&["-b", "notes.md", "--width", "100", "--color", "other.md", "-h"]);
    assert_eq!(o.input.as_deref(), Some("notes.md"));
    assert!(o.no_colors && o.force_color && o.help);
    assert_eq!(o.width, Some(100));
    let o = parsed(&["--no-colors", "-w", "7", "--help"]);
    assert!(o.no_colors && o.help);
    assert_eq!(o.width, Some(7));
    assert!(o.input.is_none());
}

#[test]
fn dash_reads_stdin() {
    let o = parsed(&["-"]);
    assert_eq!(o.input.as_deref(), Some("-"));
}

#[test]
fn the_last_width_counts() {
    assert_eq!(parsed(&["-w", "10", "-w", "20"]).width, Some(20));
}

#[test]
fn refused_command_lines() {
    match parse_args(&args(&["-x"])) {
        Err(ArgError::UnknownOption(a)) => assert_eq!(a, "-x"),
        _ => panic!("expected an unknown option"),
    }
    match parse_args(&args(&["--colour"])) {
        Err(e) => assert_eq!(e.message(), "unknown option: --colour"),
        _ => panic!("expected an unknown option"),
    }
    match parse_args(&args(&["file.md", "-w"])) {
        Err(e) => {
            assert!(matches!(e, ArgError::MissingWidth));
            assert_eq!(e.message(), "missing value for --width");
        }
        _ => panic!("expected a missing width"),
    }
    match parse_args(&args(&["--width", "wide"])) {
        Err(e) => {
            assert!(matches!(&e, ArgError::BadWidth(v) if v == "wide"));
            assert_eq!(e.message(), "invalid width: wide");
        }
        _ => panic!("expected a bad width"),
    }
}

#[test]
fn widths() {
    assert_eq!(parse_width("0"), Some(0));
    assert_eq!(parse_width("80"), Some(80));
    assert_eq!(parse_width("007"), Some(7));
    assert_eq!(parse_width(""), None);
    assert_eq!(parse_width("-3"), None);
    assert_eq!(parse_width("12a"), None);
    assert_eq!(parse_width(" 5"), None);
    assert_eq!(parse_width("18446744073709551615"), Some(usize::MAX));
    assert_eq!(parse_width("18446744073709551616"), None);
    assert_eq!(parse_width("99999999999999999999x"), None);
}

#[test]
fn color_choice() {
    let plain = parsed(&[]);
    assert!(use_colors(&plain, true, false));
    assert!(!use_colors(&plain, false, false));
    assert!(!use_colors(&plain, true, true));
    let forced = parsed(&["--color"]);
    assert!(use_colors(&forced, false, false));
    assert!(use_colors(&forced, true, true));
    let off = parsed(&["-b", "--color"]);
    assert!(!use_colors(&off, true, false));
}

#[test]
fn printed_without_colors() {
    let doc = render_markdown("# Title\n\nsome **bold** text\n", 40);
    assert_eq!(render_output(&doc, false), "Title\n\nsome bold text\n\n");
}

#[test]
fn printed_with_colors() {
    let doc = render_markdown("# Hi\n\na **b**\n", 40);
    assert_eq!(
        render_output(&doc, true),
        "\x1b[96;1;4mHi\x1b[0m\n\na \x1b[1mb\x1b[0m\n\n"
    );
}

#[test]
fn printed_plain_line_needs_no_reset() {
    let doc = render_markdown("plain\n", 40);
    assert_eq!(render_output(&doc, true), "plain\n\n");
}

#[test]
fn input_choice() {
    assert!(matches!(choose_input(&parsed(&[]), true), InputChoice::Help));
    assert!(matches!(choose_input(&parsed(&[]), false), InputChoice::Stdin));
    assert!(matches!(choose_input(&parsed(&["-"]), true), InputChoice::Stdin));
    assert!(matches!(choose_input(&parsed(&["a.md", "-h"]), false), InputChoice::Help));
    match choose_input(&parsed(&["a.md"]), true) {
        InputChoice::File(p) => assert_eq!(p, "a.md"),
        _ => panic!("expected a file"),
    }
}

#[test]
fn pager_only_with_colors_on_a_terminal() {
    assert!(use_pager(true, true));
    assert!(!use_pager(true, false));
    assert!(!use_pager(false, true));
}

#[test]
fn output_width_fallbacks() {
    assert_eq!(print_width(Some(30), Some(100), Some("50")), 30);
    assert_eq!(print_width(None, Some(100), Some("50")), 100);
    assert_eq!(print_width(None, Some(0), Some("50")), 50);
    assert_eq!(print_width(None, None, Some("50")), 50);
    assert_eq!(print_width(None, None, Some("wide")), 80);
    assert_eq!(print_width(None, None, None), 80);
}
