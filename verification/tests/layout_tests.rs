use mdview::layout::{flush_inline, wrap_runs, Block};
use mdview::render::{display_width, Line, Style, Styled};

fn plain() -> Style {
    Style::default()
}

fn text(line: &Line) -> String {
    line.runs.iter().map(|r| r.text.as_str()).collect()
}

fn texts(lines: &[Line]) -> Vec<String> {
    lines.iter().map(text).collect()
}

#[test]
fn wrap_breaks_at_spaces() {
    let runs = vec![Styled::new("hello world foo", plain())];
    let lines = wrap_runs(&runs, 11);
    assert_eq!(texts(&lines), vec!["hello world", "foo"]);
    for l in &lines {
        assert!(display_width(&text(l)) <= 11);
    }
}

#[test]
fn wrap_gives_one_run_per_character() {
    let bold = Style { bold: true, ..plain() };
    let runs = vec![Styled::new("ab", bold), Styled::new("cd", plain())];
    let lines = wrap_runs(&runs, 10);
    assert_eq!(lines.len(), 1);
    let r = &lines[0].runs;
    assert_eq!(r.len(), 4);
    assert!(r[0] == Styled::new("a", bold));
    assert!(r[1] == Styled::new("b", bold));
    assert!(r[2] == Styled::new("c", plain()));
    assert!(r[3] == Styled::new("d", plain()));
}

#[test]
fn wrap_splits_words_wider_than_the_width() {
    let runs = vec![Styled::new("abcdefg", plain())];
    assert_eq!(texts(&wrap_runs(&runs, 3)), vec!["abc", "def", "g"]);
}

#[test]
fn wrap_of_nothing_is_one_empty_line() {
    let runs: Vec<Styled> = Vec::new();
    let lines = wrap_runs(&runs, 10);
    assert_eq!(lines.len(), 1);
    assert!(lines[0].runs.is_empty());
}

#[test]
fn wrap_keeps_trailing_blanks_on_the_last_line() {
    let runs = vec![Styled::new("ab  ", plain())];
    assert_eq!(texts(&wrap_runs(&runs, 10)), vec!["ab  "]);
}

#[test]
fn wrap_drops_blanks_at_a_break() {
    let runs = vec![Styled::new("aa   bb", plain())];
    assert_eq!(texts(&wrap_runs(&runs, 4)), vec!["aa", "bb"]);
}

#[test]
fn wrap_keeps_leading_blanks_with_the_first_word() {
    let runs = vec![Styled::new("  ab", plain())];
    assert_eq!(texts(&wrap_runs(&runs, 3)), vec!["  a", "b"]);
}

#[test]
fn wrap_at_zero_width_puts_each_character_on_a_line() {
    let runs = vec![Styled::new("ab", plain())];
    assert_eq!(texts(&wrap_runs(&runs, 0)), vec!["a", "b"]);
}

#[test]
fn wrap_counts_wide_characters() {
    let runs = vec![Styled::new("日本語", plain())];
    assert_eq!(texts(&wrap_runs(&runs, 4)), vec!["日本", "語"]);
}

#[test]
fn wrap_loses_no_word_character() {
    let input = "the quick brown fox jumps over the lazy dog";
    let runs = vec![Styled::new(input, plain())];
    for width in [1usize, 5, 9, 14, 100] {
        let lines = wrap_runs(&runs, width);
        let joined: String = texts(&lines).concat().chars().filter(|c| *c != ' ').collect();
        let expected: String = input.chars().filter(|c| *c != ' ').collect();
        assert_eq!(joined, expected);
        for l in &lines {
            assert!(display_width(text(l).trim_end()) <= width);
        }
    }
}

#[test]
fn wrap_moves_a_word_that_fits_to_the_next_line_whole() {
    let runs = vec![Styled::new("aaa bbb ccc ddd", plain())];
    assert_eq!(texts(&wrap_runs(&runs, 10)), vec!["aaa bbb", "ccc ddd"]);
    let input = "the quick brown fox jumps over the lazy dog";
    let words: Vec<&str> = input.split(' ').collect();
    for width in [5usize, 9, 14, 100] {
        let lines = wrap_runs(&vec![Styled::new(input, plain())], width);
        for l in &lines {
            for w in text(l).split(' ') {
                assert!(words.contains(&w), "{w:?} at width {width}");
            }
        }
    }
}

#[test]
fn wrap_splits_a_long_word_after_a_break() {
    let runs = vec![Styled::new("ab cdefgh", plain())];
    assert_eq!(texts(&wrap_runs(&runs, 4)), vec!["ab", "cdef", "gh"]);
}

#[test]
fn wrap_measures_a_word_across_styles() {
    let bold = Style { bold: true, ..plain() };
    let runs = vec![Styled::new("xx ab", plain()), Styled::new("cd", bold)];
    let lines = wrap_runs(&runs, 5);
    assert_eq!(texts(&lines), vec!["xx", "abcd"]);
    assert!(lines[1].runs[2] == Styled::new("c", bold));
}

#[test]
fn block_merges_runs_of_one_style() {
    let bold = Style { bold: true, ..plain() };
    let mut b = Block::new();
    b.push("ab", plain());
    b.push("cd", plain());
    assert_eq!(b.runs.len(), 1);
    assert!(b.runs[0] == Styled::new("abcd", plain()));
    b.push("", bold);
    assert_eq!(b.runs.len(), 1);
    b.push("e", bold);
    b.push("f", plain());
    assert_eq!(b.runs.len(), 3);
    let all: String = b.runs.iter().map(|r| r.text.as_str()).collect();
    assert_eq!(all, "abcdef");
    assert!(b.runs[1] == Styled::new("e", bold));
}

#[test]
fn flush_puts_the_marker_first_and_indents_the_rest() {
    let mut out: Vec<Line> = Vec::new();
    let mut block = Block::new();
    block.push("alpha beta", plain());
    let mut marker = Some("• ".to_string());
    flush_inline(&mut out, &mut block, 8, &mut marker, 2);
    assert_eq!(texts(&out), vec!["• alph", "  a", "  beta"]);
    assert!(block.runs.is_empty());
    assert!(marker.is_none());
    for l in &out {
        assert!(display_width(&text(l)) <= 8);
    }
}

#[test]
fn flush_of_an_empty_block_keeps_the_marker() {
    let mut out: Vec<Line> = Vec::new();
    let mut block = Block::new();
    let mut marker = Some("1. ".to_string());
    flush_inline(&mut out, &mut block, 20, &mut marker, 3);
    assert!(out.is_empty());
    assert_eq!(marker, Some("1. ".to_string()));
}

#[test]
fn flush_appends_after_earlier_lines() {
    let mut out: Vec<Line> = vec![Line { runs: vec![Styled::new("x", plain())] }];
    let mut block = Block::new();
    block.push("one two", plain());
    let mut marker: Option<String> = None;
    flush_inline(&mut out, &mut block, 4, &mut marker, 1);
    assert_eq!(texts(&out), vec!["x", "one", " two"]);
}

#[test]
fn flush_without_indent_adds_no_run_to_the_first_line() {
    let mut out: Vec<Line> = Vec::new();
    let mut block = Block::new();
    block.push("ab", plain());
    let mut marker: Option<String> = None;
    flush_inline(&mut out, &mut block, 10, &mut marker, 0);
    assert_eq!(out.len(), 1);
    assert_eq!(out[0].runs.len(), 2);
}

#[test]
fn flush_puts_the_lead_before_a_nested_marker() {
    let mut out: Vec<Line> = Vec::new();
    let mut block = Block::new();
    block.push("x", plain());
    let mut marker = Some("• ".to_string());
    flush_inline(&mut out, &mut block, 20, &mut marker, 4);
    assert_eq!(texts(&out), vec!["  • x"]);
}
