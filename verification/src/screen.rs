//! Composing the terminal screen: ANSI-styled lines and the status line.
use vstd::prelude::*;
use crate::layout::{cells_of, explode, lemma_cells_of_push, lemma_explode_take};
use crate::render::{
    ansi_switch, display_width, plain_style, runs_text, runs_view, text_width, Color, Line, Run,
    Style,
};
use crate::parse::Document;
use crate::search::{find_matches, line_text, scan_matches};
use crate::text::{chars_of, clamp, dec_digits, decimal, push_char, spaces};
use crate::viewer::{Viewer, ViewerState};

verus! {

/// Style of the characters that match the search.
pub open spec fn match_style() -> Style {
    Style { fg: Color::Black, bg: Color::BrightYellow, bold: true, ..plain_style() }
}

/// Whether character index `ci` lies in one of the ranges `ms`.
pub open spec fn in_matches(ms: Seq<(usize, usize)>, ci: nat) -> bool {
    exists|j: int| 0 <= j < ms.len() && #[trigger] ms[j].0 <= ci < ms[j].1
}

/// ANSI rendering of single-character runs starting in style `prev`: before
/// each character, the escape sequence to its style (the match style inside
/// a match range); returns the text and the style in effect at the end.
pub open spec fn paint(cells: Seq<Run>, ms: Seq<(usize, usize)>, prev: Style) -> (Seq<char>, Style)
    decreases cells.len(),
{
    if cells.len() == 0 {
        (Seq::empty(), prev)
    } else {
        let r = paint(cells.drop_last(), ms, prev);
        let st = if in_matches(ms, clamp((cells.len() - 1) as nat)) {
            match_style()
        } else {
            cells.last().1
        };
        (r.0 + ansi_switch(st, r.1) + cells.last().0, st)
    }
}

fn is_match(matches: &Vec<(usize, usize)>, ci: usize) -> (b: bool)
    ensures
        b == in_matches(matches@, ci as nat),
{
    let mut j: usize = 0;
    while j < matches.len()
        invariant
            j <= matches.len(),
            forall|k: int| 0 <= k < j ==> !(#[trigger] matches@[k].0 <= ci < matches@[k].1),
        decreases matches.len() - j,
    {
        let (s, e) = matches[j];
        if ci >= s && ci < e {
            assert(matches@[j as int].0 <= ci < matches@[j as int].1);
            return true;
        }
        j = j + 1;
    }
    false
}

/// Append a line's ANSI rendering to `buf`, highlighting `matches`, tracking
/// the running style in `prev`.
pub fn write_line_impl(buf: &mut String, line: &Line, matches: &Vec<(usize, usize)>, prev: &mut Style)
    ensures
        final(buf)@ == old(buf)@ + paint(cells_of(line@), matches@, *old(prev)).0,
        *final(prev) == paint(cells_of(line@), matches@, *old(prev)).1,
{
    let match_st = Style {
        fg: Color::Black,
        bg: Color::BrightYellow,
        bold: true,
        ..Style::default()
    };
    let ghost lv = line@;
    let ghost b0 = buf@;
    let ghost p0 = *prev;
    let mut ci: usize = 0;
    let mut i: usize = 0;
    assert(lv.take(0) =~= Seq::<Run>::empty());
    assert(buf@ =~= b0 + paint(cells_of(lv.take(0)), matches@, p0).0);
    while i < line.runs.len()
        invariant
            match_st == match_style(),
            lv == runs_view(line.runs@),
            i <= line.runs.len(),
            ci as nat == clamp(cells_of(lv.take(i as int)).len()),
            buf@ == b0 + paint(cells_of(lv.take(i as int)), matches@, p0).0,
            *prev == paint(cells_of(lv.take(i as int)), matches@, p0).1,
        decreases line.runs.len() - i,
    {
        let cs = chars_of(line.runs[i].text.as_str());
        let style = line.runs[i].style;
        let ghost base = cells_of(lv.take(i as int));
        let mut j: usize = 0;
        assert(base + explode(cs@.take(0), style) =~= base);
        while j < cs.len()
            invariant
                match_st == match_style(),
                lv == runs_view(line.runs@),
                i < line.runs.len(),
                j <= cs.len(),
                base == cells_of(lv.take(i as int)),
                ci as nat == clamp((base + explode(cs@.take(j as int), style)).len()),
                buf@ == b0 + paint(base + explode(cs@.take(j as int), style), matches@, p0).0,
                *prev == paint(base + explode(cs@.take(j as int), style), matches@, p0).1,
            decreases cs.len() - j,
        {
            let ghost cur = base + explode(cs@.take(j as int), style);
            let ghost nxt = base + explode(cs@.take(j + 1), style);
            proof {
                lemma_explode_take(cs@, style, j as int);
                assert(nxt =~= cur.push((seq![cs@[j as int]], style)));
                assert(nxt.drop_last() =~= cur);
            }
            let ch = cs[j];
            let st = if is_match(matches, ci) {
                match_st
            } else {
                style
            };
            let ghost pc = paint(cur, matches@, p0);
            assert(nxt.len() - 1 == cur.len());
            assert(nxt.last() == (seq![ch], style));
            assert(paint(nxt, matches@, p0) == (pc.0 + ansi_switch(st, pc.1) + seq![ch], st));
            let esc = st.to_ansi(*prev);
            if !esc.as_str().is_empty() {
                buf.append(esc.as_str());
                *prev = st;
            } else {
                assert(esc@.len() == 0);
            }
            push_char(buf, ch);
            assert(buf@ =~= b0 + paint(nxt, matches@, p0).0);
            ci = ci.saturating_add(1);
            j = j + 1;
        }
        proof {
            assert(cs@.take(j as int) =~= cs@);
            assert(lv.take(i + 1) =~= lv.take(i as int).push(lv[i as int]));
            lemma_cells_of_push(lv.take(i as int), lv[i as int]);
        }
        i = i + 1;
    }
    assert(lv.take(i as int) =~= lv);
}

/// The smaller of two numbers.
pub open spec fn min(a: nat, b: nat) -> nat {
    if a < b {
        a
    } else {
        b
    }
}

/// The first shown line, the line after the last shown one, and the
/// position in percent.
pub open spec fn status_numbers(s: ViewerState, view_h: nat) -> (nat, nat, nat) {
    let total = s.lines.len();
    let top = min(s.scroll, total);
    let bottom = min(s.scroll + view_h, total);
    let pct = if total == 0 {
        100
    } else {
        clamp(top * 100) / total
    };
    (top, bottom, pct)
}

/// `top–bottom/total pct%`.
pub open spec fn status_counts(s: ViewerState, view_h: nat) -> Seq<char> {
    let n = status_numbers(s, view_h);
    dec_digits(n.0) + "\u{2013}"@ + dec_digits(n.1) + "/"@ + dec_digits(s.lines.len()) + " "@
        + dec_digits(n.2) + "%"@
}

/// The file name part of the status line.
pub open spec fn status_path(path: Option<Seq<char>>) -> Seq<char> {
    match path {
        Some(p) => " mdview "@ + p + " "@,
        None => " mdview stdin "@,
    }
}

/// The search part of the status line.
pub open spec fn status_search(search: Option<Seq<char>>) -> Seq<char> {
    match search {
        Some(q) => "  /"@ + q + " [n/N next]"@,
        None => Seq::empty(),
    }
}

/// The prompt, or a summary of the keys.
pub open spec fn status_prompt(prompt: Option<crate::viewer::PromptState>) -> Seq<char> {
    match prompt {
        Some(p) => "  "@ + p.label + p.buf,
        None => "  [j/k scroll \u{b7} / search \u{b7} g/G top/bottom \u{b7} q quit]"@,
    }
}

/// The status line before padding: reverse video, the file name (or
/// `stdin`), the visible range, the total and the position in percent, the
/// search, and the prompt or a key summary.
pub open spec fn status_head(s: ViewerState, view_h: nat) -> Seq<char> {
    "\x1b[7m"@ + status_path(s.path) + status_counts(s, view_h) + status_search(s.search)
        + status_prompt(s.prompt)
}

/// The status line before its final reset: the head padded with spaces
/// to `width` display columns.
pub open spec fn status_padded(s: ViewerState, view_h: nat, width: nat) -> Seq<char> {
    let head = status_head(s, view_h);
    let w = clamp(text_width(head));
    head + spaces(
        if w < width {
            (width - w) as nat
        } else {
            0
        },
    )
}

/// The status line: the padded head and a reset of all attributes.
pub open spec fn status_text(s: ViewerState, view_h: nat, width: nat) -> Seq<char> {
    status_padded(s, view_h, width) + "\x1b[0m"@
}

/// The status line spans the terminal: before its reset it is exactly
/// `width` columns wide when its content is narrower, and otherwise as wide
/// as its content.
pub proof fn law_status_fills(s: ViewerState, view_h: nat, width: nat)
    requires
        text_width(status_head(s, view_h)) <= usize::MAX,
    ensures
        text_width(status_padded(s, view_h, width)) == if text_width(status_head(s, view_h)) < width {
            width
        } else {
            text_width(status_head(s, view_h))
        },
{
    let head = status_head(s, view_h);
    let w = clamp(text_width(head));
    let pad: nat = if w < width {
        (width - w) as nat
    } else {
        0
    };
    crate::render::lemma_text_width_concat(head, spaces(pad));
    crate::table::lemma_spaces_width(pad);
}

/// The status line's position figures: the first shown line and the line
/// after the last, both capped at the number of lines, and the first
/// line's position in percent (100 for an empty document), as long as a
/// hundred times the number of lines fits in a `usize`.
pub proof fn law_status_numbers(s: ViewerState, view_h: nat)
    requires
        s.lines.len() * 100 <= usize::MAX,
    ensures
        status_numbers(s, view_h).0 == min(s.scroll, s.lines.len()),
        status_numbers(s, view_h).1 == min(s.scroll + view_h, s.lines.len()),
        status_numbers(s, view_h).2 == if s.lines.len() == 0 {
            100
        } else {
            min(s.scroll, s.lines.len()) * 100 / s.lines.len()
        },
{
    let top = min(s.scroll, s.lines.len());
    assert(top * 100 <= s.lines.len() * 100) by (nonlinear_arith)
        requires
            top <= s.lines.len(),
    ;
}

fn append_decimal(s: &mut String, n: usize)
    ensures
        final(s)@ == old(s)@ + dec_digits(n as nat),
{
    let d = decimal(n as u64);
    s.append(d.as_str());
}

/// `top * 100 / total` with the product saturating at `usize::MAX`.
fn percent(top: usize, total: usize) -> (p: usize)
    requires
        total > 0,
    ensures
        p as nat == clamp((top * 100) as nat) / (total as nat),
{
    if top > usize::MAX / 100 {
        assert(top * 100 > usize::MAX) by (nonlinear_arith)
            requires
                top > usize::MAX / 100,
        ;
        usize::MAX / total
    } else {
        assert(top * 100 <= usize::MAX) by (nonlinear_arith)
            requires
                top <= usize::MAX / 100,
        ;
        (top * 100) / total
    }
}

fn append_counts(st: &mut String, v: &Viewer, view_h: usize)
    ensures
        final(st)@ == old(st)@ + status_counts(v@, view_h as nat),
{
    let total = v.doc.lines.len();
    let top = if v.scroll < total {
        v.scroll
    } else {
        total
    };
    let end = v.scroll.saturating_add(view_h);
    let bottom = if end < total {
        end
    } else {
        total
    };
    let pct = if total == 0 {
        100
    } else {
        percent(top, total)
    };
    let ghost n = status_numbers(v@, view_h as nat);
    assert(top == n.0 && bottom == n.1 && pct == n.2);
    let ghost s0 = st@;
    append_decimal(st, top);
    st.append("\u{2013}");
    append_decimal(st, bottom);
    st.append("/");
    append_decimal(st, total);
    st.append(" ");
    append_decimal(st, pct);
    st.append("%");
    assert(st@ =~= s0 + status_counts(v@, view_h as nat));
}

fn append_path(st: &mut String, path: &Option<String>)
    ensures
        final(st)@ == old(st)@ + status_path(crate::text::opt_view(*path)),
{
    match path {
        Some(p) => {
            st.append(" mdview ");
            st.append(p.as_str());
            st.append(" ");
        },
        None => st.append(" mdview stdin "),
    }
    assert(st@ =~= old(st)@ + status_path(crate::text::opt_view(*path)));
}

fn append_search(st: &mut String, search: &Option<String>)
    ensures
        final(st)@ == old(st)@ + status_search(crate::text::opt_view(*search)),
{
    match search {
        Some(q) => {
            st.append("  /");
            st.append(q.as_str());
            st.append(" [n/N next]");
        },
        None => {},
    }
    assert(st@ =~= old(st)@ + status_search(crate::text::opt_view(*search)));
}

fn append_prompt(st: &mut String, prompt: &Option<crate::viewer::Prompt>)
    ensures
        final(st)@ == old(st)@ + status_prompt(crate::viewer::prompt_view(*prompt)),
{
    match prompt {
        Some(p) => {
            st.append("  ");
            st.append(p.label.as_str());
            st.append(p.buf.as_str());
        },
        None => st.append("  [j/k scroll \u{b7} / search \u{b7} g/G top/bottom \u{b7} q quit]"),
    }
    assert(st@ =~= old(st)@ + status_prompt(crate::viewer::prompt_view(*prompt)));
}

pub fn status_line(v: &Viewer, view_h: usize, width: usize) -> (st: String)
    ensures
        st@ == status_text(v@, view_h as nat, width as nat),
{
    let mut st = String::new();
    st.append("\x1b[7m");
    append_path(&mut st, &v.path);
    append_counts(&mut st, v, view_h);
    append_search(&mut st, &v.search);
    append_prompt(&mut st, &v.prompt);
    assert(st@ =~= status_head(v@, view_h as nat));
    let ghost h = st@;
    let w = display_width(st.as_str());
    if w < width {
        let pad = crate::text::spaces_string(width - w);
        st.append(pad.as_str());
    } else {
        assert(h + spaces(0) =~= h);
    }
    st.append("\x1b[0m");
    assert(st@ =~= status_text(v@, view_h as nat, width as nat));
    st
}

/// The match ranges highlighted in a line: those of a non-empty search.
pub open spec fn line_highlights(s: ViewerState, line: Seq<Run>) -> Seq<(usize, usize)> {
    match s.search {
        Some(q) => if q.len() > 0 {
            scan_matches(runs_text(line), q, 0)
        } else {
            Seq::empty()
        },
        None => Seq::empty(),
    }
}

/// Screen row `y`: cursor to its start, the document line shown there (if
/// any) with the search highlighted, then a reset and a clear to the end of
/// the row.
pub open spec fn row_text(s: ViewerState, y: nat) -> Seq<char> {
    let li = clamp(s.scroll + y);
    "\x1b["@ + dec_digits(y + 1) + ";1H"@ + (if li < s.lines.len() {
        paint(cells_of(s.lines[li as int]), line_highlights(s, s.lines[li as int]), plain_style()).0
    } else {
        Seq::empty()
    }) + "\x1b[0m\x1b[K"@
}

/// The escape sequence that moves the cursor to the start of screen row `y`.
pub open spec fn row_cursor(y: nat) -> Seq<char> {
    "\x1b["@ + dec_digits(y + 1) + ";1H"@
}

/// Screen row `y` shows document line `scroll + y`, painted with the search
/// highlights, or nothing past the end of the document; and scrolling down
/// by one line moves what every row shows up by one row.
pub proof fn law_rows_follow_scroll(s: ViewerState, y: nat)
    requires
        s.scroll + y + 1 <= usize::MAX,
    ensures
        row_text(s, y) == row_cursor(y) + (if s.scroll + y < s.lines.len() {
            paint(
                cells_of(s.lines[(s.scroll + y) as int]),
                line_highlights(s, s.lines[(s.scroll + y) as int]),
                plain_style(),
            ).0
        } else {
            Seq::empty()
        }) + "\x1b[0m\x1b[K"@,
        row_text(ViewerState { scroll: s.scroll + 1, ..s }, y) == row_cursor(y) + row_text(
            s,
            y + 1,
        ).skip(row_cursor(y + 1).len() as int),
{
    let t = ViewerState { scroll: s.scroll + 1, ..s };
    let li = s.scroll + y + 1;
    let body = (if li < s.lines.len() {
        paint(cells_of(s.lines[li as int]), line_highlights(s, s.lines[li as int]), plain_style()).0
    } else {
        Seq::empty()
    }) + "\x1b[0m\x1b[K"@;
    assert(clamp(s.scroll + y) == s.scroll + y);
    assert(clamp(t.scroll + y) == li);
    assert(clamp(s.scroll + (y + 1)) == li);
    assert(line_highlights(t, s.lines[li as int]) == line_highlights(s, s.lines[li as int]));
    assert(row_text(s, y + 1) =~= row_cursor(y + 1) + body);
    assert((row_cursor(y + 1) + body).skip(row_cursor(y + 1).len() as int) =~= body);
    assert(row_text(t, y) =~= row_cursor(y) + body);
}

/// The first `k` screen rows.
pub open spec fn rows_text(s: ViewerState, k: nat) -> Seq<char>
    decreases k,
{
    if k == 0 {
        Seq::empty()
    } else {
        rows_text(s, (k - 1) as nat) + row_text(s, (k - 1) as nat)
    }
}

/// The whole screen for a terminal of `rows` lines: clear, the document
/// rows, the status line on the last row, and a final reset.
pub open spec fn screen_text(s: ViewerState, rows: nat) -> Seq<char> {
    let view_h: nat = if rows > 0 {
        (rows - 1) as nat
    } else {
        0
    };
    "\x1b[H\x1b[2J"@ + rows_text(s, view_h) + (if rows >= 1 {
        "\x1b["@ + dec_digits(rows) + ";1H"@ + status_text(s, view_h, s.width)
    } else {
        Seq::empty()
    }) + "\x1b[0m"@
}

fn append_row(buf: &mut String, v: &Viewer, y: usize)
    requires
        y < usize::MAX,
    ensures
        final(buf)@ == old(buf)@ + row_text(v@, y as nat),
{
    let ghost b0 = buf@;
    let li = v.scroll.saturating_add(y);
    buf.append("\x1b[");
    append_decimal(buf, y + 1);
    buf.append(";1H");
    let ghost b1 = buf@;
    if li < v.doc.lines.len() {
        let line = &v.doc.lines[li];
        assert(v@.lines[li as int] == line@);
        let matches = match &v.search {
            Some(q) => {
                if !q.as_str().is_empty() {
                    find_matches(line, q.as_str())
                } else {
                    Vec::new()
                }
            },
            None => Vec::new(),
        };
        assert(matches@ =~= line_highlights(v@, line@));
        let mut prev = Style::default();
        write_line_impl(buf, line, &matches, &mut prev);
    }
    buf.append("\x1b[0m\x1b[K");
    assert(buf@ =~= b0 + row_text(v@, y as nat));
}

pub fn draw(v: &Viewer, rows: usize) -> (buf: String)
    ensures
        buf@ == screen_text(v@, rows as nat),
{
    let width = v.width;
    let view_h = rows.saturating_sub(1);
    let mut buf = String::new();
    buf.append("\x1b[H\x1b[2J");
    let ghost b0 = buf@;
    let mut y: usize = 0;
    assert(buf@ =~= b0 + rows_text(v@, 0));
    while y < view_h
        invariant
            y <= view_h,
            view_h < rows || rows == 0,
            buf@ == b0 + rows_text(v@, y as nat),
        decreases view_h - y,
    {
        append_row(&mut buf, v, y);
        y = y + 1;
        assert(buf@ =~= b0 + rows_text(v@, y as nat));
    }
    let ghost b1 = buf@;
    if rows >= 1 {
        buf.append("\x1b[");
        append_decimal(&mut buf, rows);
        buf.append(";1H");
        let st = status_line(v, view_h, width);
        buf.append(st.as_str());
    }
    buf.append("\x1b[0m");
    assert(buf@ =~= screen_text(v@, rows as nat));
    buf
}

/// A line as printed without paging: its text, or with colors its ANSI
/// rendering followed by a reset when it leaves a style on.
pub open spec fn printed_line(line: Seq<Run>, colors: bool) -> Seq<char> {
    if colors {
        let p = paint(cells_of(line), Seq::empty(), plain_style());
        p.0 + if p.1 == plain_style() {
            Seq::empty()
        } else {
            "\x1b[0m"@
        }
    } else {
        runs_text(line)
    }
}

/// The document as printed without paging: every line and a newline.
pub open spec fn printed(lines: Seq<Seq<Run>>, colors: bool) -> Seq<char>
    decreases lines.len(),
{
    if lines.len() == 0 {
        Seq::empty()
    } else {
        printed(lines.drop_last(), colors) + printed_line(lines.last(), colors) + "\n"@
    }
}

/// The document as printed to a pipe or a terminal without paging.
pub fn render_output(doc: &Document, colors: bool) -> (s: String)
    ensures
        s@ == printed(doc@, colors),
{
    let mut s = String::new();
    let ghost lv = doc@;
    let mut i: usize = 0;
    assert(lv.take(0) =~= Seq::<Seq<Run>>::empty());
    while i < doc.lines.len()
        invariant
            lv == doc@,
            i <= doc.lines.len(),
            s@ == printed(lv.take(i as int), colors),
        decreases doc.lines.len() - i,
    {
        let ghost s0 = s@;
        let line = &doc.lines[i];
        assert(lv[i as int] == line@);
        if colors {
            let mut prev = Style::default();
            let none: Vec<(usize, usize)> = Vec::new();
            assert(none@ =~= Seq::<(usize, usize)>::empty());
            write_line_impl(&mut s, line, &none, &mut prev);
            if prev != Style::default() {
                s.append("\x1b[0m");
            }
        } else {
            let t = line_text(line);
            s.append(t.as_str());
        }
        s.append("\n");
        assert(lv.take(i + 1).drop_last() =~= lv.take(i as int));
        assert(s@ =~= s0 + printed_line(line@, colors) + "\n"@);
        i = i + 1;
    }
    assert(lv.take(i as int) =~= lv);
    s
}

} // verus!
