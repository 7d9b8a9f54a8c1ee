use mdview::render::{char_display_w, display_width, to_bg_code, unicode_width, Color, Style, Styled};

fn plain() -> Style {
    Style::default()
}

#[test]
fn default_style_is_plain() {
    let s = Style::default();
    assert_eq!(s.fg, Color::Reset);
    assert_eq!(s.bg, Color::Reset);
    assert!(!s.bold && !s.italic && !s.underline && !s.strikethrough);
    assert_eq!(Color::default(), Color::Reset);
}

#[test]
fn unchanged_style_needs_no_escape() {
    let s = Style { bold: true, fg: Color::Red, ..plain() };
    assert_eq!(s.to_ansi(s), "");
    assert_eq!(plain().to_ansi(plain()), "");
}

#[test]
fn bold_switches_on_and_off() {
    let bold = Style { bold: true, ..plain() };
    assert_eq!(bold.to_ansi(plain()), "\x1b[1m");
    assert_eq!(plain().to_ansi(bold), "\x1b[22m");
}

#[test]
fn foreground_codes() {
    let red = Style { fg: Color::Red, ..plain() };
    assert_eq!(red.to_ansi(plain()), "\x1b[31m");
    let bright_black = Style { fg: Color::BrightBlack, ..plain() };
    assert_eq!(bright_black.to_ansi(plain()), "\x1b[90m");
    let unset = Style { fg: Color::Unset, ..plain() };
    assert_eq!(unset.to_ansi(plain()), "\x1b[39m");
    assert_eq!(plain().to_ansi(red), "\x1b[39m");
    let rgb = Style { fg: Color::Rgb(1, 2, 3), ..plain() };
    assert_eq!(rgb.to_ansi(plain()), "\x1b[38;2;1;2;3m");
}

#[test]
fn background_codes() {
    let green = Style { bg: Color::Green, ..plain() };
    assert_eq!(green.to_ansi(plain()), "\x1b[42m");
    let bright_red = Style { bg: Color::BrightRed, ..plain() };
    assert_eq!(bright_red.to_ansi(plain()), "\x1b[101m");
    let bright_yellow = Style { bg: Color::BrightYellow, ..plain() };
    assert_eq!(bright_yellow.to_ansi(plain()), "\x1b[103m");
    assert_eq!(plain().to_ansi(green), "\x1b[49m");
    let rgb = Style { bg: Color::Rgb(10, 20, 30), ..plain() };
    assert_eq!(rgb.to_ansi(plain()), "\x1b[48;2;10;20;30m");
    let blue = Style { bg: Color::Blue, ..plain() };
    assert_eq!(plain().to_ansi(blue), "\x1b[49m");
    let unset = Style { bg: Color::Unset, ..plain() };
    assert_eq!(unset.to_ansi(blue), "\x1b[49m");
    let bright_black = Style { bg: Color::BrightBlack, ..plain() };
    assert_eq!(bright_black.to_ansi(plain()), "\x1b[100m");
    let bright_white = Style { bg: Color::BrightWhite, ..plain() };
    assert_eq!(bright_white.to_ansi(plain()), "\x1b[107m");
    let white = Style { bg: Color::White, ..plain() };
    assert_eq!(white.to_ansi(plain()), "\x1b[47m");
}

#[test]
fn several_changes_join_with_semicolons() {
    let heading = Style { fg: Color::BrightCyan, bold: true, underline: true, ..plain() };
    assert_eq!(heading.to_ansi(plain()), "\x1b[96;1;4m");
    let all = Style { italic: true, underline: true, strikethrough: true, ..plain() };
    assert_eq!(all.to_ansi(plain()), "\x1b[3;4;9m");
    assert_eq!(plain().to_ansi(all), "\x1b[23;24;29m");
    let matched = Style { fg: Color::Black, bg: Color::BrightYellow, bold: true, ..plain() };
    assert_eq!(matched.to_ansi(plain()), "\x1b[30;103;1m");
}

#[test]
fn display_width_counts_columns() {
    assert_eq!(display_width(""), 0);
    assert_eq!(display_width("abc"), 3);
    assert_eq!(display_width("a\tb"), 6);
    assert_eq!(display_width("日本"), 4);
    assert_eq!(display_width("한글"), 4);
    assert_eq!(display_width("😀!"), 3);
    assert_eq!(display_width("│─┌"), 3);
    assert_eq!(display_width("• x"), 3);
}

#[test]
fn char_widths() {
    assert_eq!(char_display_w('a'), 1);
    assert_eq!(char_display_w('\t'), 4);
    assert_eq!(char_display_w('中'), 2);
    assert_eq!(char_display_w('\u{1100}'), 2);
    assert_eq!(char_display_w('\u{115F}'), 2);
    assert_eq!(char_display_w('\u{1160}'), 1);
    assert_eq!(char_display_w('\u{FF01}'), 2);
    assert_eq!(char_display_w('\u{3FFFD}'), 2);
    assert_eq!(char_display_w('\u{3FFFE}'), 1);
}

#[test]
fn styled_runs_compare_by_text_and_style() {
    let bold = Style { bold: true, ..plain() };
    let a = Styled::new("hi", bold);
    assert_eq!(a.text, "hi");
    assert_eq!(a.style, bold);
    assert!(a == Styled::new("hi", bold));
    assert!(a != Styled::new("ho", bold));
    assert!(a != Styled::new("hi", plain()));
    let b = a.duplicate();
    assert!(a == b);
}

#[test]
fn background_palette_indexes() {
    assert_eq!(to_bg_code(Color::Black), 0);
    assert_eq!(to_bg_code(Color::White), 7);
    assert_eq!(to_bg_code(Color::BrightBlack), 8);
    assert_eq!(to_bg_code(Color::BrightYellow), 11);
    assert_eq!(to_bg_code(Color::Reset), 0);
    assert_eq!(to_bg_code(Color::Rgb(1, 2, 3)), 0);
}

#[test]
fn unicode_widths() {
    assert_eq!(unicode_width('a'), 1);
    assert_eq!(unicode_width('中'), 2);
    assert_eq!(unicode_width('\u{115F}'), 2);
    assert_eq!(unicode_width('\u{1F64F}'), 2);
    assert_eq!(unicode_width('\u{1F650}'), 1);
    assert_eq!(unicode_width('\t'), 1);
}
