use mdview::viewer::{screen_size, Action, Input, Key, Prompt, Viewer};

/// Ten one-word paragraphs: twenty lines (each paragraph and a blank line).
fn source() -> String {
    (0..10).map(|i| format!("p{i}\n\n")).collect()
}

fn viewer(rows: usize) -> Viewer {
    Viewer::new(source(), Some("notes.md".to_string()), 40, rows)
}

fn key(c: char) -> Input {
    Input::Key(Key::Char(c), false)
}

#[test]
fn new_viewer_shows_the_top() {
    let v = viewer(5);
    assert_eq!(v.doc.lines.len(), 20);
    assert_eq!(v.scroll, 0);
    assert_eq!(v.width, 40);
    assert_eq!(v.rows, 5);
    assert!(v.search.is_none());
    assert!(v.prompt.is_none());
}

#[test]
fn keys_scroll_within_bounds() {
    let mut v = viewer(5);
    assert_eq!(v.handle(key('j')), Action::Continue);
    assert_eq!(v.scroll, 1);
    v.handle(Input::Key(Key::Down, false));
    assert_eq!(v.scroll, 2);
    v.handle(key('k'));
    v.handle(Input::Key(Key::Up, false));
    assert_eq!(v.scroll, 0);
    v.handle(key('k'));
    assert_eq!(v.scroll, 0);
    v.handle(key('G'));
    assert_eq!(v.scroll, 16);
    v.handle(key('j'));
    assert_eq!(v.scroll, 16);
    v.handle(key('g'));
    assert_eq!(v.scroll, 0);
    v.handle(Input::Key(Key::End, false));
    assert_eq!(v.scroll, 16);
    v.handle(Input::Key(Key::Home, false));
    assert_eq!(v.scroll, 0);
}

#[test]
fn pages_move_by_the_view_height() {
    let mut v = viewer(5);
    v.handle(key(' '));
    assert_eq!(v.scroll, 4);
    v.handle(key('f'));
    v.handle(key('d'));
    assert_eq!(v.scroll, 12);
    v.handle(Input::Key(Key::PageDown, false));
    assert_eq!(v.scroll, 16);
    v.handle(key('b'));
    assert_eq!(v.scroll, 12);
    v.handle(key('u'));
    v.handle(Input::Key(Key::PageUp, false));
    assert_eq!(v.scroll, 4);
    v.handle(Input::Key(Key::PageUp, false));
    assert_eq!(v.scroll, 0);
}

#[test]
fn mouse_wheel_scrolls_three_lines() {
    let mut v = viewer(5);
    v.handle(Input::ScrollDown);
    assert_eq!(v.scroll, 3);
    v.handle(Input::ScrollDown);
    v.handle(Input::ScrollUp);
    assert_eq!(v.scroll, 3);
    v.handle(Input::ScrollUp);
    v.handle(Input::ScrollUp);
    assert_eq!(v.scroll, 0);
}

#[test]
fn scroll_stays_in_bounds_for_any_input() {
    let mut v = viewer(5);
    let inputs = [
        key('G'), key('j'), Input::ScrollDown, Input::Key(Key::PageDown, true), key('k'),
        Input::Resize(40, 30), key('G'), Input::Resize(40, 3), key('G'), Input::Other, key('x'),
    ];
    for input in inputs {
        v.handle(input);
        let view_h = v.rows.saturating_sub(1);
        assert!(v.scroll <= v.doc.lines.len().saturating_sub(view_h));
    }
}

#[test]
fn quitting() {
    let mut v = viewer(5);
    assert_eq!(v.handle(key('q')), Action::Quit);
    assert_eq!(v.handle(Input::Key(Key::Esc, false)), Action::Quit);
    assert_eq!(v.handle(Input::Key(Key::Char('c'), true)), Action::Quit);
    assert_eq!(v.handle(key('c')), Action::Continue);
    assert_eq!(v.handle(Input::Other), Action::Continue);
}

#[test]
fn reload_needs_a_file() {
    let mut v = viewer(5);
    assert_eq!(v.handle(key('r')), Action::Reload);
    let mut w = Viewer::new(source(), None, 40, 5);
    assert_eq!(w.handle(key('r')), Action::Continue);
}

#[test]
fn search_prompt_edits_and_submits() {
    let mut v = viewer(5);
    v.handle(key('/'));
    let p = v.prompt.as_ref().unwrap();
    assert_eq!(p.label, "Search: ");
    assert_eq!(p.buf, "");
    for c in "P7x".chars() {
        v.handle(key(c));
    }
    assert_eq!(v.prompt.as_ref().unwrap().buf, "P7x");
    v.handle(Input::Key(Key::Backspace, false));
    assert_eq!(v.prompt.as_ref().unwrap().buf, "P7");
    assert_eq!(v.handle(key('q')), Action::Continue);
    v.handle(Input::Key(Key::Backspace, false));
    assert_eq!(v.handle(Input::Key(Key::Enter, false)), Action::Continue);
    assert!(v.prompt.is_none());
    assert_eq!(v.search.as_deref(), Some("P7"));
    assert_eq!(v.scroll, 14);
}

#[test]
fn backspace_on_an_empty_prompt_keeps_it_open() {
    let mut v = viewer(5);
    v.handle(key('/'));
    v.handle(Input::Key(Key::Backspace, false));
    assert_eq!(v.prompt.as_ref().unwrap().buf, "");
}

#[test]
fn escape_closes_the_prompt_without_searching() {
    let mut v = viewer(5);
    v.handle(key('/'));
    v.handle(key('p'));
    v.handle(Input::Key(Key::Esc, false));
    assert!(v.prompt.is_none());
    assert!(v.search.is_none());
}

#[test]
fn empty_query_clears_the_search() {
    let mut v = viewer(5);
    v.search = Some("p1".to_string());
    v.handle(key('/'));
    v.handle(Input::Key(Key::Enter, false));
    assert!(v.search.is_none());
    assert_eq!(v.scroll, 0);
}

#[test]
fn unmatched_query_goes_to_the_top() {
    let mut v = viewer(5);
    v.handle(key('G'));
    v.handle(key('/'));
    v.handle(key('z'));
    v.handle(Input::Key(Key::Enter, false));
    assert_eq!(v.search.as_deref(), Some("z"));
    assert_eq!(v.scroll, 0);
}

#[test]
fn next_and_previous_match_wrap_around() {
    let mut v = viewer(5);
    v.search = Some("p".to_string());
    v.handle(key('n'));
    assert_eq!(v.scroll, 2);
    v.handle(key('n'));
    assert_eq!(v.scroll, 4);
    v.handle(key('N'));
    assert_eq!(v.scroll, 2);
    v.handle(key('N'));
    assert_eq!(v.scroll, 0);
    v.handle(key('N'));
    assert_eq!(v.scroll, 16);
}

#[test]
fn find_next_visits_every_line_once() {
    let mut v = viewer(5);
    v.search = Some("P3".to_string());
    assert_eq!(v.find_next(0, 1), Some(6));
    assert_eq!(v.find_next(6, 1), Some(6));
    assert_eq!(v.find_next(0, -1), Some(6));
    assert_eq!(v.find_next(19, 1), Some(6));
    v.search = Some("nothing".to_string());
    assert_eq!(v.find_next(0, 1), None);
    v.search = None;
    assert_eq!(v.find_next(0, 1), None);
    v.search = Some(String::new());
    assert_eq!(v.find_next(0, 1), None);
}

#[test]
fn find_next_in_an_empty_document() {
    let mut v = Viewer::new(String::new(), None, 40, 5);
    v.search = Some("a".to_string());
    assert_eq!(v.find_next(0, 1), None);
}

#[test]
fn resize_lays_out_again_and_clamps() {
    let mut v = Viewer::new("aaa bbb ccc\n".to_string(), None, 40, 5);
    assert_eq!(v.doc.lines.len(), 2);
    v.handle(Input::Resize(4, 2));
    assert_eq!(v.width, 4);
    assert_eq!(v.rows, 2);
    assert_eq!(v.doc.lines.len(), 4);
    v.handle(key('G'));
    assert_eq!(v.scroll, 3);
    v.handle(Input::Resize(40, 10));
    assert_eq!(v.doc.lines.len(), 2);
    assert_eq!(v.scroll, 0);
}

#[test]
fn reload_source_keeps_the_position_when_it_can() {
    let mut v = viewer(5);
    v.handle(key('G'));
    v.reload_source("short\n".to_string());
    assert_eq!(v.source, "short\n");
    assert_eq!(v.doc.lines.len(), 2);
    assert_eq!(v.scroll, 0);
    let mut w = viewer(5);
    w.handle(key('j'));
    w.reload_source(source());
    assert_eq!(w.scroll, 1);
}

#[test]
fn direct_movement() {
    let mut v = viewer(5);
    v.go(100, 4);
    assert_eq!(v.scroll, 16);
    v.scroll_by(-5, 4);
    assert_eq!(v.scroll, 11);
    v.scroll_by(i64::MIN, 4);
    assert_eq!(v.scroll, 0);
    v.scroll_by(i64::MAX, 4);
    assert_eq!(v.scroll, 16);
    v.scroll = 19;
    v.clamp(4);
    assert_eq!(v.scroll, 16);
    v.reload(40, 30);
    assert_eq!(v.scroll, 0);
}

#[test]
fn prompt_submits_its_text() {
    let p = Prompt { label: "Search: ".to_string(), buf: "abc".to_string() };
    assert_eq!(p.submit(), Some("abc".to_string()));
}

#[test]
fn screen_size_defaults() {
    assert_eq!(screen_size(None), (80, 24));
    assert_eq!(screen_size(Some((0, 0))), (80, 24));
    assert_eq!(screen_size(Some((100, 30))), (100, 30));
    assert_eq!(screen_size(Some((0, 5))), (80, 5));
    assert_eq!(screen_size(Some((7, 0))), (7, 24));
}

fn texts(lines: &[mdview::render::Line]) -> Vec<String> {
    lines.iter().map(|l| l.runs.iter().map(|r| r.text.as_str()).collect()).collect()
}

#[test]
fn shown_lines_follow_the_source_and_width() {
    let mut v = Viewer::new("aaa bbb ccc\n\n- x y\n".to_string(), None, 40, 5);
    for input in [Input::Resize(5, 4), key('j'), Input::Resize(9, 4), key('/'), key('a')] {
        v.handle(input);
        let expected = mdview::parse::render_markdown(&v.source, v.width);
        assert_eq!(texts(&v.doc.lines), texts(&expected.lines));
    }
}

#[test]
fn typing_then_backspace_restores_the_viewer() {
    let mut v = viewer(5);
    v.handle(key('j'));
    v.handle(key('/'));
    v.handle(key('a'));
    let before = (v.scroll, v.prompt.as_ref().unwrap().buf.clone(), v.search.clone());
    v.handle(key('z'));
    v.handle(Input::Key(Key::Backspace, false));
    let after = (v.scroll, v.prompt.as_ref().unwrap().buf.clone(), v.search.clone());
    assert_eq!(before, after);
}
