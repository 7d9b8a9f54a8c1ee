use mdview::render::{Color, Line, Style, Styled};
use mdview::screen::{draw, status_line, write_line_impl};
use mdview::viewer::{Prompt, Viewer};

const KEYS: &str = "  [j/k scroll · / search · g/G top/bottom · q quit]";

#[test]
fn line_rendering_switches_styles_only_when_they_change() {
    let bold = Style { bold: true, ..Style::default() };
    let line = Line { runs: vec![Styled::new("ab", Style::default()), Styled::new("cd", bold)] };
    let mut buf = String::from(">");
    let mut prev = Style::default();
    write_line_impl(&mut buf, &line, &Vec::new(), &mut prev);
    assert_eq!(buf, ">ab\x1b[1mcd");
    assert_eq!(prev, bold);
    let mut buf2 = String::new();
    write_line_impl(&mut buf2, &line, &Vec::new(), &mut prev);
    assert_eq!(buf2, "\x1b[22mab\x1b[1mcd");
}

#[test]
fn line_rendering_highlights_matches() {
    let bold = Style { bold: true, ..Style::default() };
    let line = Line { runs: vec![Styled::new("ab", Style::default()), Styled::new("c", bold)] };
    let mut buf = String::new();
    let mut prev = Style::default();
    write_line_impl(&mut buf, &line, &vec![(1, 2)], &mut prev);
    assert_eq!(buf, "a\x1b[30;103;1mb\x1b[39;49mc");
    assert_eq!(prev, bold);
}

#[test]
fn line_rendering_of_an_empty_line_changes_nothing() {
    let line = Line { runs: Vec::new() };
    let red = Style { fg: Color::Red, ..Style::default() };
    let mut buf = String::from("x");
    let mut prev = red;
    write_line_impl(&mut buf, &line, &vec![(0, 5)], &mut prev);
    assert_eq!(buf, "x");
    assert_eq!(prev, red);
}

#[test]
fn status_line_without_room_to_pad() {
    let v = Viewer::new("# Hi\n".to_string(), Some("f.md".to_string()), 40, 5);
    let expected = format!("\x1b[7m mdview f.md 0–2/2 0%{KEYS}\x1b[0m");
    assert_eq!(status_line(&v, 4, 40), expected);
}

#[test]
fn status_line_pads_to_the_width() {
    let v = Viewer::new("# Hi\n".to_string(), Some("f.md".to_string()), 40, 5);
    let expected = format!("\x1b[7m mdview f.md 0–2/2 0%{KEYS}{}\x1b[0m", " ".repeat(24));
    assert_eq!(status_line(&v, 4, 100), expected);
}

#[test]
fn status_line_shows_search_and_prompt() {
    let mut v = Viewer::new("# Hi\n".to_string(), Some("f.md".to_string()), 40, 5);
    v.search = Some("Hi".to_string());
    v.prompt = Some(Prompt { label: "Search: ".to_string(), buf: "x".to_string() });
    let expected =
        format!("\x1b[7m mdview f.md 0–2/2 0%  /Hi [n/N next]  Search: x{}\x1b[0m", " ".repeat(8));
    assert_eq!(status_line(&v, 4, 60), expected);
}

#[test]
fn status_line_position() {
    let src: String = (0..10).map(|i| format!("p{i}\n\n")).collect();
    let mut v = Viewer::new(src, None, 40, 5);
    v.scroll = 16;
    let expected = format!("\x1b[7m mdview stdin 16–20/20 80%{KEYS}\x1b[0m");
    assert_eq!(status_line(&v, 4, 10), expected);
    v.scroll = 3;
    let expected = format!("\x1b[7m mdview stdin 3–7/20 15%{KEYS}\x1b[0m");
    assert_eq!(status_line(&v, 4, 10), expected);
}

#[test]
fn status_line_of_an_empty_document() {
    let v = Viewer::new(String::new(), None, 40, 5);
    let expected = format!("\x1b[7m mdview stdin 0–0/0 100%{KEYS}\x1b[0m");
    assert_eq!(status_line(&v, 4, 10), expected);
}

#[test]
fn draw_shows_lines_and_status() {
    let v = Viewer::new("# Hi\n".to_string(), None, 10, 3);
    let status = format!("\x1b[7m mdview stdin 0–2/2 0%{KEYS}\x1b[0m");
    let expected = format!(
        "\x1b[H\x1b[2J\x1b[1;1H\x1b[96;1;4mHi\x1b[0m\x1b[K\x1b[2;1H\x1b[0m\x1b[K\x1b[3;1H{status}\x1b[0m"
    );
    assert_eq!(draw(&v, 3), expected);
}

#[test]
fn draw_restarts_the_style_on_each_line() {
    let v = Viewer::new("**ab cd**\n".to_string(), None, 2, 4);
    let status = format!("\x1b[7m mdview stdin 0–3/3 0%{KEYS}\x1b[0m");
    let expected = format!(
        "\x1b[H\x1b[2J\x1b[1;1H\x1b[1mab\x1b[0m\x1b[K\x1b[2;1H\x1b[1mcd\x1b[0m\x1b[K\x1b[3;1H\x1b[0m\x1b[K\x1b[4;1H{status}\x1b[0m"
    );
    assert_eq!(draw(&v, 4), expected);
}

#[test]
fn draw_highlights_the_search() {
    let mut v = Viewer::new("ab\n".to_string(), None, 10, 2);
    v.search = Some("B".to_string());
    let status = format!("\x1b[7m mdview stdin 0–1/2 0%  /B [n/N next]{KEYS}\x1b[0m");
    let expected = format!(
        "\x1b[H\x1b[2J\x1b[1;1Ha\x1b[30;103;1mb\x1b[0m\x1b[K\x1b[2;1H{status}\x1b[0m"
    );
    assert_eq!(draw(&v, 2), expected);
}

#[test]
fn draw_without_rows() {
    let v = Viewer::new("ab\n".to_string(), None, 10, 0);
    assert_eq!(draw(&v, 0), "\x1b[H\x1b[2J\x1b[0m");
}
