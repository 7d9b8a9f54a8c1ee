use mdview::render::{Line, Style, Styled};
use mdview::search::{find_matches, line_matches, line_text};

fn line(parts: &[&str]) -> Line {
    Line { runs: parts.iter().map(|p| Styled::new(p, Style::default())).collect() }
}

#[test]
fn line_text_joins_the_runs() {
    assert_eq!(line_text(&line(&["ab", "", "c"])), "abc");
    assert_eq!(line_text(&line(&[])), "");
}

#[test]
fn matching_ignores_case() {
    let l = line(&["say ", "hello"]);
    assert!(line_matches(&l, Some("HELLO")));
    assert!(line_matches(&l, Some("y h")));
    assert!(line_matches(&l, Some("Say Hello")));
    assert!(!line_matches(&l, Some("goodbye")));
    assert!(!line_matches(&l, Some("hello!")));
}

#[test]
fn matching_needs_a_query() {
    let l = line(&["text"]);
    assert!(!line_matches(&l, None));
    assert!(!line_matches(&l, Some("")));
}

#[test]
fn matching_unicode_case() {
    let l = line(&["ÄRGER über"]);
    assert!(line_matches(&l, Some("ärger")));
    assert!(line_matches(&l, Some("ÜBER")));
}

#[test]
fn match_ranges_ignore_case() {
    let l = line(&["abcABCab"]);
    assert_eq!(find_matches(&l, "ab"), vec![(0, 2), (3, 5), (6, 8)]);
    assert_eq!(find_matches(&l, "AB"), vec![(0, 2), (3, 5), (6, 8)]);
}

#[test]
fn match_ranges_do_not_overlap() {
    assert_eq!(find_matches(&line(&["aaaa"]), "aa"), vec![(0, 2), (2, 4)]);
    assert_eq!(find_matches(&line(&["aaa"]), "aa"), vec![(0, 2)]);
}

#[test]
fn match_ranges_span_runs_and_count_characters() {
    assert_eq!(find_matches(&line(&["Hel", "lo"]), "LL"), vec![(2, 4)]);
    assert_eq!(find_matches(&line(&["日本語の本"]), "本"), vec![(1, 2), (4, 5)]);
}

#[test]
fn match_ranges_edge_cases() {
    assert!(find_matches(&line(&["abc"]), "").is_empty());
    assert!(find_matches(&line(&["ab"]), "abc").is_empty());
    assert!(find_matches(&line(&[]), "a").is_empty());
    assert!(find_matches(&line(&["xyz"]), "a").is_empty());
    assert_eq!(find_matches(&line(&["abc"]), "abc"), vec![(0, 3)]);
}
