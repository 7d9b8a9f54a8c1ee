use mdview::parse::render_markdown;
use mdview::render::{display_width, Color, Line};

fn plain(line: &Line) -> String {
    line.runs.iter().map(|r| r.text.as_str()).collect()
}

#[test]
fn renders_table_with_borders() {
    let md = "| A | B |\n|---|---|\n| 1 | 22 |\n| 333 | 4 |\n";
    let doc = render_markdown(md, 60);
    let lines: Vec<String> = doc.lines.iter().map(plain).collect();
    assert!(lines.iter().any(|l| l.starts_with("┌")), "{lines:?}");
    assert!(lines.iter().any(|l| l.starts_with("╞")), "{lines:?}");
    assert!(lines.iter().any(|l| l.starts_with("├")), "{lines:?}");
    assert!(lines.iter().any(|l| l.starts_with("└")), "{lines:?}");
    // header text must be present
    assert!(lines.iter().any(|l| l.contains("A") && l.contains("B")), "{lines:?}");
    assert!(lines.iter().any(|l| l.contains("333")), "{lines:?}");
    // every output row must fit the terminal width
    for l in &lines {
        assert!(display_width(l) <= 60, "too wide: {l:?}");
    }
}

#[test]
fn shrinks_wide_table_to_fit_terminal() {
    let md = "| ColOne | ColTwo | ColThree |\n|---|---|---|\n| a | bbb | ccccc |\n";
    let doc = render_markdown(md, 20);
    for l in &doc.lines {
        let p = plain(l);
        assert!(display_width(&p) <= 20, "too wide: {p:?}");
    }
}

#[test]
fn table_rows_have_vertical_borders() {
    let md = "| A | B |\n|---|---|\n| 1 | 2 |\n";
    let doc = render_markdown(md, 60);
    let lines: Vec<String> = doc.lines.iter().map(plain).collect();
    let row = lines.iter().find(|l| l.contains("A") && l.contains("B")).unwrap();
    assert!(row.starts_with("│"), "{row}");
    assert!(row.ends_with("│"), "{row}");
    let body = lines.iter().find(|l| l.contains('1') && l.contains('2')).unwrap();
    assert!(body.starts_with("│ ") && body.ends_with(" │"), "{body}");
    // double-line header divider
    assert!(
        lines.iter().any(|l| l.starts_with('╞') && l.ends_with('╡')),
        "{lines:?}"
    );
}

#[test]
fn wraps_paragraphs_to_width() {
    let md = "Lorem ipsum dolor sit amet consectetur adipiscing elit sed do eiusmod.";
    let doc = render_markdown(md, 24);
    assert!(doc.lines.len() > 1, "expected wrapping");
    for l in &doc.lines {
        assert!(display_width(&plain(l)) <= 24, "line too wide");
    }
}

#[test]
fn styles_headings_differently() {
    let md = "# Big\n\n## Medium\n\n### Small\n";
    let doc = render_markdown(md, 60);
    let h1 = doc.lines.iter().find(|l| plain(l) == "Big").unwrap();
    let h2 = doc.lines.iter().find(|l| plain(l) == "Medium").unwrap();
    let h3 = doc.lines.iter().find(|l| plain(l) == "Small").unwrap();
    assert_eq!(h1.runs[0].style.fg, Color::BrightCyan);
    assert_eq!(h2.runs[0].style.fg, Color::BrightCyan);
    assert_eq!(h3.runs[0].style.fg, Color::BrightBlue);
    assert!(h1.runs[0].style.bold);
    assert!(h1.runs[0].style.underline);
    assert!(!h3.runs[0].style.underline);
}

#[test]
fn handles_ordered_and_bullet_lists() {
    let md = "- alpha\n- beta\n\n1. first\n2. second\n";
    let doc = render_markdown(md, 60);
    let lines: Vec<String> = doc.lines.iter().map(plain).collect();
    assert!(lines.iter().any(|l| l.contains("• alpha")), "{lines:?}");
    assert!(lines.iter().any(|l| l.contains("1. first")), "{lines:?}");
    assert!(lines.iter().any(|l| l.contains("2. second")), "{lines:?}");
}
