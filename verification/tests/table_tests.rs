use mdview::render::{display_width, Color, Line, Style, Styled};
use mdview::table::{pack_cell, render_table, shrink_columns, Align};

fn plain() -> Style {
    Style::default()
}

fn text(line: &Line) -> String {
    line.runs.iter().map(|r| r.text.as_str()).collect()
}

fn cell(s: &str) -> Vec<Styled> {
    vec![Styled::new(s, plain())]
}

fn row(cells: &[&str]) -> Vec<Vec<Styled>> {
    cells.iter().map(|c| cell(c)).collect()
}

fn render(rows: &Vec<Vec<Vec<Styled>>>, aligns: &Vec<Align>, width: usize) -> Vec<String> {
    let mut out: Vec<Line> = Vec::new();
    render_table(rows, aligns, width, &mut out);
    out.iter().map(text).collect()
}

#[test]
fn table_aligns_right_and_center() {
    let rows = vec![row(&["n", "name"]), row(&["1", "ab"])];
    let lines = render(&rows, &vec![Align::Right, Align::Center], 40);
    assert_eq!(
        lines,
        vec![
            "┌───┬──────┐",
            "│ n │ name │",
            "╞═══╪══════╡",
            "│ 1 │  ab  │",
            "└───┴──────┘",
        ]
    );
    let lines = render(&rows, &vec![Align::Left, Align::Right], 40);
    assert_eq!(lines[3], "│ 1 │   ab │");
    let lines = render(&rows, &vec![Align::Unspecified], 40);
    assert_eq!(lines[3], "│ 1 │ ab   │");
}

#[test]
fn table_centers_with_the_extra_space_on_the_right() {
    let rows = vec![row(&["header"]), row(&["abc"])];
    let lines = render(&rows, &vec![Align::Center], 40);
    assert_eq!(lines[3], "│  abc   │");
}

#[test]
fn table_separates_every_body_row() {
    let rows = vec![row(&["h"]), row(&["a"]), row(&["b"]), row(&["c"])];
    let lines = render(&rows, &vec![], 40);
    assert_eq!(lines.len(), 2 * rows.len() + 1);
    assert_eq!(
        lines,
        vec!["┌───┐", "│ h │", "╞═══╡", "│ a │", "├───┤", "│ b │", "├───┤", "│ c │", "└───┘"]
    );
}

#[test]
fn table_with_only_a_header_keeps_its_divider() {
    let rows = vec![row(&["a", "b"])];
    let lines = render(&rows, &vec![], 40);
    assert_eq!(lines, vec!["┌───┬───┐", "│ a │ b │", "╞═══╪═══╡", "└───┴───┘"]);
}

#[test]
fn table_shrinks_the_widest_column_first() {
    let rows = vec![row(&["abcdef", "xy"])];
    let lines = render(&rows, &vec![], 10);
    assert_eq!(lines, vec!["┌────┬───┐", "│ ab │ x │", "╞════╪═══╡", "└────┴───┘"]);
    for l in &lines {
        assert!(display_width(l) <= 10);
    }
}

#[test]
fn table_rows_shorter_than_the_header_get_empty_cells() {
    let rows = vec![row(&["a", "b"]), row(&["c"])];
    let lines = render(&rows, &vec![], 40);
    assert_eq!(lines[3], "│ c │   │");
}

#[test]
fn table_header_is_bold_and_yellow() {
    let rows = vec![row(&["h"]), row(&["v"])];
    let mut out: Vec<Line> = Vec::new();
    render_table(&rows, &vec![], 40, &mut out);
    let header = &out[1];
    let h = header.runs.iter().find(|r| r.text == "h").unwrap();
    assert!(h.style.bold);
    assert_eq!(h.style.fg, Color::BrightYellow);
    let body = &out[3];
    let v = body.runs.iter().find(|r| r.text == "v").unwrap();
    assert!(!v.style.bold);
    assert_eq!(v.style.fg, Color::Reset);
    let border = &out[0].runs[0];
    assert_eq!(border.style.fg, Color::BrightBlack);
}

#[test]
fn table_keeps_a_cell_color_in_the_header() {
    let red = Style { fg: Color::Red, ..plain() };
    let rows = vec![vec![vec![Styled::new("r", red)]], row(&["v"])];
    let mut out: Vec<Line> = Vec::new();
    render_table(&rows, &vec![], 40, &mut out);
    let h = out[1].runs.iter().find(|r| r.text == "r").unwrap();
    assert!(h.style.bold);
    assert_eq!(h.style.fg, Color::Red);
}

#[test]
fn empty_tables_draw_nothing() {
    let rows: Vec<Vec<Vec<Styled>>> = Vec::new();
    assert!(render(&rows, &vec![], 40).is_empty());
    let rows: Vec<Vec<Vec<Styled>>> = vec![Vec::new()];
    assert!(render(&rows, &vec![], 40).is_empty());
}

#[test]
fn every_table_line_is_equally_wide() {
    let rows = vec![row(&["name", "x"]), row(&["a", "longer text"]), row(&["bb", ""])];
    for width in [9usize, 12, 20, 80] {
        let lines = render(&rows, &vec![Align::Right, Align::Left], width);
        let natural = (4 + 2) + (11 + 2) + 3;
        for l in &lines {
            assert_eq!(display_width(l), natural.min(width), "{l:?}");
        }
    }
}

#[test]
fn packing_keeps_the_longest_fitting_prefix() {
    let bold = Style { bold: true, ..plain() };
    let cell = vec![Styled::new("ab", bold), Styled::new("cd", plain())];
    let packed = pack_cell(&cell, 3);
    assert_eq!(packed.len(), 2);
    assert!(packed[0] == Styled::new("ab", bold));
    assert!(packed[1] == Styled::new("c", plain()));
    let wide = vec![Styled::new("a日b", plain())];
    let packed = pack_cell(&wide, 2);
    assert_eq!(packed.len(), 1);
    assert_eq!(packed[0].text, "a");
    assert!(pack_cell(&wide, 0).is_empty());
}

#[test]
fn shrinking_cuts_the_widest_columns_to_a_common_level() {
    let mut w = vec![8usize, 4];
    shrink_columns(&mut w, 7);
    assert_eq!(w, vec![4, 3]);
    let mut w = vec![5usize, 5, 5];
    shrink_columns(&mut w, 12);
    assert_eq!(w, vec![4, 4, 4]);
    let mut w = vec![5usize, 5, 5];
    shrink_columns(&mut w, 13);
    assert_eq!(w, vec![5, 4, 4]);
    let mut w = vec![1usize, 2];
    shrink_columns(&mut w, 10);
    assert_eq!(w, vec![1, 2]);
    let mut w = vec![3usize, 1];
    shrink_columns(&mut w, 0);
    assert_eq!(w, vec![0, 0]);
}
