use mdview::parse::{current_inline, render_markdown};
use mdview::render::{display_width, Color, Line, Style};

fn text(line: &Line) -> String {
    line.runs.iter().map(|r| r.text.as_str()).collect()
}

fn texts(md: &str, width: usize) -> Vec<String> {
    render_markdown(md, width).lines.iter().map(text).collect()
}

#[test]
fn paragraph_wraps_and_ends_with_a_blank_line() {
    assert_eq!(texts("aaa bbb ccc ddd\n", 10), vec!["aaa bbb", "ccc ddd", ""]);
}

#[test]
fn soft_break_becomes_a_space() {
    assert_eq!(texts("a\nb\n", 40), vec!["a b", ""]);
}

#[test]
fn hard_break_starts_a_new_line() {
    assert_eq!(texts("a  \nb\n", 40), vec!["a", "b", ""]);
}

#[test]
fn code_block_keeps_lines_and_drops_trailing_spaces() {
    let doc = render_markdown("```\nlet x = 1;  \n    foo\n```\n", 40);
    let lines: Vec<String> = doc.lines.iter().map(text).collect();
    assert_eq!(lines, vec!["let x = 1;", "    foo", ""]);
    assert_eq!(doc.lines[0].runs[0].style.fg, Color::BrightGreen);
}

#[test]
fn code_block_lines_are_cut_to_the_width() {
    let lines = texts("```\nabcdefghij klmnop\n```\n", 5);
    assert_eq!(lines, vec!["abcde", "fghij", " klmn", "op", ""]);
    let md = format!("```\n{}\n```\n", "x".repeat(30));
    let doc = render_markdown(&md, 20);
    for l in &doc.lines {
        assert!(display_width(&text(l)) <= 20);
    }
    assert_eq!(texts(&md, 20), vec!["x".repeat(20), "x".repeat(10), String::new()]);
}

#[test]
fn code_block_keeps_empty_lines() {
    assert_eq!(texts("```\na\n\nb\n```\n", 40), vec!["a", "", "b", ""]);
}

#[test]
fn rule_spans_the_width() {
    let doc = render_markdown("---\n", 10);
    let lines: Vec<String> = doc.lines.iter().map(text).collect();
    assert_eq!(lines, vec!["  ────────", ""]);
    assert_eq!(doc.lines[0].runs[0].style.fg, Color::BrightBlack);
    assert_eq!(texts("---\n", 1), vec!["  ─", ""]);
}

#[test]
fn task_list_markers() {
    assert_eq!(texts("- [x] done\n- [ ] todo\n", 40), vec!["• [x] done", "• [ ] todo", ""]);
}

#[test]
fn ordered_lists_count_from_one() {
    assert_eq!(texts("3. a\n4. b\n", 40), vec!["1. a", "2. b", ""]);
}

#[test]
fn nested_list_items_are_indented() {
    assert_eq!(texts("- a\n  - b\n", 40), vec!["• a", "  • b", "", ""]);
    assert_eq!(texts("1. a\n   1. b\n      - c\n", 40), vec!["1. a", "  1. b", "    • c", "", "", ""]);
}

#[test]
fn later_paragraphs_of_an_item_start_at_the_margin() {
    assert_eq!(texts("- a\n\n  b\n", 40), vec!["• a", "", "b", "", ""]);
}

#[test]
fn nested_items_wrap_in_the_room_left_by_indent_and_marker() {
    let lines = texts("- a\n  - bbb ccc ddd\n", 12);
    assert_eq!(lines, vec!["• a", "  • bbb", "    ccc", "    ddd", "", ""]);
}

#[test]
fn list_items_wrap_under_their_indent() {
    let lines = texts("- alpha beta gamma\n", 12);
    assert_eq!(lines, vec!["• alpha", "  beta", "  gamma", ""]);
    for l in &lines {
        assert!(display_width(l) <= 12);
    }
}

#[test]
fn inline_styles() {
    let doc = render_markdown("a *b* **c** `d` ~~e~~\n", 40);
    let line = &doc.lines[0];
    let style_of = |t: &str| line.runs.iter().find(|r| r.text == t).unwrap().style;
    assert_eq!(style_of("a"), Style::default());
    let b = style_of("b");
    assert!(b.italic && !b.bold);
    assert_eq!(b.fg, Color::Reset);
    assert!(style_of("c").bold);
    assert_eq!(style_of("d").fg, Color::BrightGreen);
    assert!(style_of("e").strikethrough);
}

#[test]
fn nested_emphasis_combines() {
    let doc = render_markdown("***x***\n", 40);
    let s = doc.lines[0].runs[0].style;
    assert!(s.bold && s.italic);
}

#[test]
fn links_are_blue_and_underlined() {
    let doc = render_markdown("see [t](http://x)\n", 40);
    let t = doc.lines[0].runs.iter().find(|r| r.text == "t").unwrap().style;
    assert_eq!(t.fg, Color::BrightBlue);
    assert!(t.underline);
}

#[test]
fn heading_inside_style_keeps_its_color() {
    let doc = render_markdown("# A *b*\n", 40);
    let b = doc.lines[0].runs.iter().find(|r| r.text == "b").unwrap().style;
    assert_eq!(b.fg, Color::BrightCyan);
    assert!(b.bold && b.italic && b.underline);
}

#[test]
fn inline_html_is_dim() {
    let doc = render_markdown("a <b>x</b>\n", 40);
    let tag = doc.lines[0].runs.iter().find(|r| r.text == "<").unwrap().style;
    assert_eq!(tag.fg, Color::BrightBlack);
}

#[test]
fn table_from_markdown_aligns_columns() {
    let lines = texts("| n | name |\n|--:|:---:|\n| 1 | ab |\n", 40);
    assert_eq!(
        lines,
        vec!["┌───┬──────┐", "│ n │ name │", "╞═══╪══════╡", "│ 1 │  ab  │", "└───┴──────┘", ""]
    );
}

#[test]
fn empty_document_has_no_lines() {
    assert!(render_markdown("", 40).lines.is_empty());
}

#[test]
fn trailing_empty_table_rows_are_dropped() {
    let lines = texts("| a | b |\n|---|---|\n| 1 | 2 |\n|   |   |\n", 40);
    assert_eq!(
        lines,
        vec!["┌───┬───┐", "│ a │ b │", "╞═══╪═══╡", "│ 1 │ 2 │", "└───┴───┘", ""]
    );
}

#[test]
fn inline_style_combines_spans_over_the_heading() {
    let italic = Style { fg: Color::Unset, italic: true, ..Style::default() };
    let link = Style { fg: Color::BrightBlue, underline: true, ..Style::default() };
    let s = current_inline(&vec![italic, link], None);
    assert_eq!(s.fg, Color::BrightBlue);
    assert!(s.italic && s.underline && !s.bold);
    let head = Style { fg: Color::BrightCyan, bold: true, ..Style::default() };
    let s = current_inline(&vec![italic], Some(head));
    assert_eq!(s.fg, Color::BrightCyan);
    assert!(s.bold && s.italic);
    assert_eq!(current_inline(&vec![], None), Style::default());
}
