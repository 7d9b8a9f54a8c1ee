//! Tables: column sizing, cell packing and box-drawing borders.
use vstd::prelude::*;
use crate::layout::{
    cells_of, char_run, explode, lemma_cells_of_push, lemma_cells_single, lemma_char_width_single,
    lemma_runs_width_push, single_chars,
};
use crate::render::{
    char_display_w, char_width, display_width, lemma_runs_width_concat, lemma_text_width_concat,
    lines_view, plain_style, runs_text, runs_view, runs_width, text_width, Color, Line, Run, Style,
    Styled,
};
use crate::text::{clamp, lemma_clamp_add, push_char, spaces, spaces_string};

verus! {

/// Horizontal alignment of a table column.
#[derive(Debug, Clone, Copy, PartialEq, Eq, Structural)]
pub enum Align {
    Unspecified,
    Left,
    Center,
    Right,
}

/// A table cell (its runs), a row (its cells) and a table (its rows), as values.
pub type CellV = Seq<Run>;

pub type RowV = Seq<CellV>;

/// The rows of a table as values.
pub open spec fn rows_view(rows: Seq<Vec<Vec<Styled>>>) -> Seq<RowV> {
    rows.map_values(|r: Vec<Vec<Styled>>| row_view(r@))
}

/// The cells of a row as values.
pub open spec fn row_view(row: Seq<Vec<Styled>>) -> RowV {
    row.map_values(|c: Vec<Styled>| runs_view(c@))
}

/// Saturating `a + b` on `usize` values.
pub open spec fn sadd(a: nat, b: nat) -> nat {
    clamp(a + b)
}

/// Saturating `a - b`.
pub open spec fn ssub(a: nat, b: nat) -> nat {
    if a > b {
        (a - b) as nat
    } else {
        0
    }
}

/// Sum of the display widths of the runs of a cell, with saturating
/// arithmetic.
pub open spec fn cell_width(runs: Seq<Run>) -> nat
    decreases runs.len(),
{
    if runs.len() == 0 {
        0
    } else {
        sadd(cell_width(runs.drop_last()), clamp(text_width(runs.last().0)))
    }
}

/// Whether every cell of a row is empty.
pub open spec fn row_is_blank(row: RowV) -> bool {
    forall|i: int| 0 <= i < row.len() ==> #[trigger] row[i].len() == 0
}

/// The rows with trailing rows of empty cells removed.
pub open spec fn pruned(rows: Seq<RowV>) -> Seq<RowV>
    decreases rows.len(),
{
    if rows.len() > 0 && row_is_blank(rows.last()) {
        pruned(rows.drop_last())
    } else {
        rows
    }
}

/// The number of columns: the length of the longest row.
pub open spec fn max_len(rows: Seq<RowV>) -> nat
    decreases rows.len(),
{
    if rows.len() == 0 {
        0
    } else {
        let m = max_len(rows.drop_last());
        if rows.last().len() > m {
            rows.last().len()
        } else {
            m
        }
    }
}

/// The widest cell of column `ci` over the rows.
pub open spec fn col_max(rows: Seq<RowV>, ci: int) -> nat
    decreases rows.len(),
{
    if rows.len() == 0 {
        0
    } else {
        let m = col_max(rows.drop_last(), ci);
        let w = if ci < rows.last().len() {
            cell_width(rows.last()[ci])
        } else {
            0
        };
        if w > m {
            w
        } else {
            m
        }
    }
}

/// Column widths before fitting: the widest cell plus one space of padding
/// on each side.
pub open spec fn natural_widths(rows: Seq<RowV>) -> Seq<usize> {
    Seq::new(max_len(rows), |ci: int| sadd(col_max(rows, ci), 2) as usize)
}

/// Sum of column widths.
pub open spec fn sum(ws: Seq<usize>) -> nat
    decreases ws.len(),
{
    if ws.len() == 0 {
        0
    } else {
        sum(ws.drop_last()) + ws.last() as nat
    }
}

/// The column to shrink next: the widest non-empty one, the last of those
/// when several are equally wide.
pub open spec fn widest(ws: Seq<usize>) -> Option<int>
    decreases ws.len(),
{
    if ws.len() == 0 {
        None
    } else {
        let p = widest(ws.drop_last());
        let w = ws.last();
        if w > 0 && (p is None || w >= ws[p->0]) {
            Some(ws.len() - 1)
        } else {
            p
        }
    }
}

pub proof fn lemma_widest(ws: Seq<usize>)
    ensures
        widest(ws) matches Some(i) ==> 0 <= i < ws.len() && ws[i] > 0,
        widest(ws) is None ==> forall|j: int| 0 <= j < ws.len() ==> ws[j] == 0,
    decreases ws.len(),
{
    if ws.len() > 0 {
        lemma_widest(ws.drop_last());
        assert forall|j: int| 0 <= j < ws.len() - 1 implies ws[j] == ws.drop_last()[j] by {}
    }
}

pub proof fn lemma_sum_update(ws: Seq<usize>, i: int, v: usize)
    requires
        0 <= i < ws.len(),
    ensures
        sum(ws.update(i, v)) + ws[i] == sum(ws) + v,
    decreases ws.len(),
{
    if i < ws.len() - 1 {
        lemma_sum_update(ws.drop_last(), i, v);
        assert(ws.update(i, v).drop_last() =~= ws.drop_last().update(i, v));
    } else {
        assert(ws.update(i, v).drop_last() =~= ws.drop_last());
    }
}

/// Column widths after repeatedly narrowing the widest column by one until
/// the total fits in `avail` (or every column is empty).
pub open spec fn shrink(ws: Seq<usize>, avail: nat) -> Seq<usize>
    decreases sum(ws),
{
    if clamp(sum(ws)) <= avail {
        ws
    } else {
        match widest(ws) {
            Some(i) => {
                proof {
                    lemma_widest(ws);
                    lemma_sum_update(ws, i, (ws[i] - 1) as usize);
                }
                if 0 <= i < ws.len() && ws[i] > 0 {
                    shrink(ws.update(i, (ws[i] - 1) as usize), avail)
                } else {
                    ws
                }
            },
            None => ws,
        }
    }
}

fn sum_widths(ws: &Vec<usize>) -> (t: usize)
    ensures
        t == clamp(sum(ws@)),
{
    let mut t: usize = 0;
    let mut i: usize = 0;
    while i < ws.len()
        invariant
            i <= ws.len(),
            t == clamp(sum(ws@.take(i as int))),
        decreases ws.len() - i,
    {
        proof {
            assert(ws@.take(i + 1).drop_last() =~= ws@.take(i as int));
            lemma_clamp_add(sum(ws@.take(i as int)), ws@[i as int] as nat);
        }
        t = t.saturating_add(ws[i]);
        i = i + 1;
    }
    assert(ws@.take(i as int) =~= ws@);
    t
}

fn widest_index(ws: &Vec<usize>) -> (r: Option<usize>)
    ensures
        match widest(ws@) {
            Some(i) => r == Some(i as usize),
            None => r is None,
        },
{
    let mut best: Option<usize> = None;
    let mut i: usize = 0;
    while i < ws.len()
        invariant
            i <= ws.len(),
            match widest(ws@.take(i as int)) {
                Some(k) => best == Some(k as usize) && 0 <= k < i,
                None => best is None,
            },
        decreases ws.len() - i,
    {
        proof {
            assert(ws@.take(i + 1).drop_last() =~= ws@.take(i as int));
            lemma_widest(ws@.take(i as int));
        }
        let w = ws[i];
        match best {
            Some(b) => {
                assert(ws@.take(i as int)[b as int] == ws@[b as int]);
                if w > 0 && w >= ws[b] {
                    best = Some(i);
                }
            },
            None => {
                if w > 0 {
                    best = Some(i);
                }
            },
        }
        i = i + 1;
    }
    assert(ws@.take(i as int) =~= ws@);
    best
}

/// Reduce column widths until their sum is <= `avail`, shrinking the widest
/// columns first.
pub fn shrink_columns(col_w: &mut Vec<usize>, avail: usize)
    ensures
        final(col_w)@ == shrink(old(col_w)@, avail as nat),
{
    loop
        invariant
            shrink(col_w@, avail as nat) == shrink(old(col_w)@, avail as nat),
        ensures
            col_w@ == shrink(old(col_w)@, avail as nat),
        decreases sum(col_w@),
    {
        let total = sum_widths(col_w);
        if total <= avail {
            break;
        }
        proof {
            lemma_widest(col_w@);
        }
        let ncols = col_w.len();
        let picked = widest_index(col_w);
        match picked {
            Some(i) => {
                proof {
                    assert(widest(col_w@) is Some);
                    let k = widest(col_w@)->0;
                    assert(picked == Some(k as usize));
                    assert(0 <= k < col_w@.len());
                    assert(k == i);
                    lemma_sum_update(col_w@, i as int, (col_w@[i as int] - 1) as usize);
                }
                let w = col_w[i];
                col_w.set(i, w - 1);
            },
            None => {
                break;
            },
        }
    }
}

/// Drops trailing rows whose cells are all empty.
pub(crate) fn prune_table_rows(rows: &mut Vec<Vec<Vec<Styled>>>)
    ensures
        rows_view(final(rows)@) == pruned(rows_view(old(rows)@)),
{
    loop
        invariant
            pruned(rows_view(rows@)) == pruned(rows_view(old(rows)@)),
        ensures
            rows_view(rows@) == pruned(rows_view(old(rows)@)),
        decreases rows@.len(),
    {
        let n = rows.len();
        if n == 0 {
            break;
        }
        let mut blank = true;
        let mut c: usize = 0;
        while c < rows[n - 1].len()
            invariant
                n == rows.len(),
                n > 0,
                c <= rows@[n - 1]@.len(),
                blank == forall|j: int|
                    0 <= j < c ==> #[trigger] row_view(rows@[n - 1]@)[j].len() == 0,
            decreases rows@[n - 1]@.len() - c,
        {
            assert(row_view(rows@[n - 1]@)[c as int] == runs_view(rows@[n - 1]@[c as int]@));
            if rows[n - 1][c].len() > 0 {
                blank = false;
            }
            c = c + 1;
        }
        let ghost rv = rows_view(rows@);
        assert(rv.last() == row_view(rows@[n - 1]@));
        assert(blank == row_is_blank(rv.last()));
        if blank {
            rows.pop();
            assert(rows_view(rows@) =~= rv.drop_last());
        } else {
            break;
        }
    }
}

/// Width of a cell: sum of its runs' display widths.
fn cell_display_width(cell: &Vec<Styled>) -> (w: usize)
    ensures
        w == cell_width(runs_view(cell@)),
{
    let mut w: usize = 0;
    let mut i: usize = 0;
    let ghost cv = runs_view(cell@);
    while i < cell.len()
        invariant
            cv == runs_view(cell@),
            i <= cell.len(),
            w == cell_width(cv.take(i as int)),
        decreases cell.len() - i,
    {
        proof {
            assert(cv.take(i + 1).drop_last() =~= cv.take(i as int));
        }
        let d = display_width(cell[i].text.as_str());
        w = w.saturating_add(d);
        i = i + 1;
    }
    assert(cv.take(i as int) =~= cv);
    w
}

fn max_row_len(rows: &Vec<Vec<Vec<Styled>>>) -> (n: usize)
    ensures
        n == max_len(rows_view(rows@)),
        forall|r: int| 0 <= r < rows@.len() ==> rows@[r]@.len() <= n,
{
    let mut n: usize = 0;
    let mut i: usize = 0;
    let ghost rv = rows_view(rows@);
    while i < rows.len()
        invariant
            rv == rows_view(rows@),
            i <= rows.len(),
            n == max_len(rv.take(i as int)),
            forall|r: int| 0 <= r < i ==> rows@[r]@.len() <= n,
        decreases rows.len() - i,
    {
        proof {
            assert(rv.take(i + 1).drop_last() =~= rv.take(i as int));
            assert(rv[i as int].len() == rows@[i as int]@.len());
        }
        if rows[i].len() > n {
            n = rows[i].len();
        }
        i = i + 1;
    }
    assert(rv.take(i as int) =~= rv);
    n
}

fn natural_column_widths(rows: &Vec<Vec<Vec<Styled>>>, ncols: usize) -> (ws: Vec<usize>)
    requires
        ncols == max_len(rows_view(rows@)),
    ensures
        ws@ == natural_widths(rows_view(rows@)),
{
    let ghost rv = rows_view(rows@);
    let mut ws: Vec<usize> = Vec::new();
    let mut ci: usize = 0;
    while ci < ncols
        invariant
            rv == rows_view(rows@),
            ncols == max_len(rv),
            ci <= ncols,
            ws@ =~= natural_widths(rv).take(ci as int),
        decreases ncols - ci,
    {
        let mut m: usize = 0;
        let mut r: usize = 0;
        while r < rows.len()
            invariant
                rv == rows_view(rows@),
                ci < ncols,
                r <= rows.len(),
                m == col_max(rv.take(r as int), ci as int),
            decreases rows.len() - r,
        {
            proof {
                assert(rv.take(r + 1).drop_last() =~= rv.take(r as int));
                assert(rv[r as int].len() == rows@[r as int]@.len());
            }
            if ci < rows[r].len() {
                assert(rv[r as int][ci as int] == runs_view(rows@[r as int]@[ci as int]@));
                let w = cell_display_width(&rows[r][ci]);
                if w > m {
                    m = w;
                }
            }
            r = r + 1;
        }
        assert(rv.take(r as int) =~= rv);
        ws.push(m.saturating_add(2));
        ci = ci + 1;
    }
    ws
}

/// `n` copies of `c`.
pub open spec fn rep(c: char, n: nat) -> Seq<char> {
    Seq::new(n, |i: int| c)
}

/// Fill characters for each column, joined by `junction`.
pub open spec fn border_body(ws: Seq<usize>, junction: char, fill: char) -> Seq<char>
    decreases ws.len(),
{
    if ws.len() == 0 {
        Seq::empty()
    } else {
        border_body(ws.drop_last(), junction, fill) + (if ws.len() > 1 {
            seq![junction]
        } else {
            Seq::empty()
        }) + rep(fill, ws.last() as nat)
    }
}

/// A horizontal table border for columns of widths `ws`.
pub open spec fn border(left: char, junction: char, right: char, fill: char, ws: Seq<usize>) -> Seq<
    char,
> {
    seq![left] + border_body(ws, junction, fill) + seq![right]
}

fn table_border(left: char, junction: char, right: char, fill: char, col_w: &Vec<usize>) -> (s:
    String)
    ensures
        s@ == border(left, junction, right, fill, col_w@),
{
    let mut s = String::new();
    push_char(&mut s, left);
    let mut i: usize = 0;
    assert(col_w@.take(0) =~= Seq::<usize>::empty());
    while i < col_w.len()
        invariant
            i <= col_w.len(),
            s@ == seq![left] + border_body(col_w@.take(i as int), junction, fill),
        decreases col_w.len() - i,
    {
        let ghost before = s@;
        if i > 0 {
            push_char(&mut s, junction);
        }
        let w = col_w[i];
        let mut k: usize = 0;
        let ghost mid = s@;
        while k < w
            invariant
                k <= w,
                s@ == mid + rep(fill, k as nat),
            decreases w - k,
        {
            push_char(&mut s, fill);
            k = k + 1;
            assert(s@ =~= mid + rep(fill, k as nat));
        }
        proof {
            assert(col_w@.take(i + 1).drop_last() =~= col_w@.take(i as int));
            assert(s@ =~= seq![left] + border_body(col_w@.take(i + 1), junction, fill));
        }
        i = i + 1;
    }
    assert(col_w@.take(i as int) =~= col_w@);
    push_char(&mut s, right);
    s
}

/// Packing a cell: the runs kept so far, their width, and whether a
/// character has already failed to fit.
pub struct PackView {
    pub out: Seq<Run>,
    pub w: nat,
    pub done: bool,
}

/// Consumes one single-character run: once a character does not fit the
/// cell width nothing more is kept; a kept character extends the last run
/// when the styles agree.
pub open spec fn pack_step(s: PackView, cell: Run, cw: nat) -> PackView {
    if s.done {
        s
    } else {
        let c = cell.0[0];
        let wc = char_width(c);
        if s.w + wc > cw {
            PackView { out: s.out, w: s.w, done: true }
        } else if s.out.len() > 0 && s.out.last().1 == cell.1 {
            PackView {
                out: s.out.drop_last().push((s.out.last().0.push(c), cell.1)),
                w: s.w + wc,
                done: false,
            }
        } else {
            PackView { out: s.out.push(cell), w: s.w + wc, done: false }
        }
    }
}

pub open spec fn pack_fold(cells: Seq<Run>, cw: nat) -> PackView
    decreases cells.len(),
{
    if cells.len() == 0 {
        PackView { out: Seq::empty(), w: 0, done: false }
    } else {
        pack_step(pack_fold(cells.drop_last(), cw), cells.last(), cw)
    }
}

/// The longest prefix of a cell's characters that fits in `cw` columns,
/// regrouped into runs of equal style.
pub open spec fn pack(runs: Seq<Run>, cw: nat) -> Seq<Run> {
    pack_fold(cells_of(runs), cw).out
}

pub proof fn lemma_pack_width(cells: Seq<Run>, cw: nat)
    ensures
        pack_fold(cells, cw).w <= cw,
    decreases cells.len(),
{
    if cells.len() > 0 {
        lemma_pack_width(cells.drop_last(), cw);
    }
}

/// Truncate/spill a cell's runs to fit exactly `cw` display columns.
pub fn pack_cell(cell: &Vec<Styled>, cw: usize) -> (out: Vec<Styled>)
    ensures
        runs_view(out@) == pack(runs_view(cell@), cw as nat),
{
    let ghost cv = runs_view(cell@);
    let mut out: Vec<Styled> = Vec::new();
    let mut w: usize = 0;
    let mut done = false;
    let mut i: usize = 0;
    assert(cv.take(0) =~= Seq::<Run>::empty());
    assert(runs_view(out@) =~= Seq::<Run>::empty());
    while i < cell.len()
        invariant
            cv == runs_view(cell@),
            i <= cell.len(),
            pack_fold(cells_of(cv.take(i as int)), cw as nat) == (PackView {
                out: runs_view(out@),
                w: w as nat,
                done,
            }),
        decreases cell.len() - i,
    {
        let cs = crate::text::chars_of(cell[i].text.as_str());
        let style = cell[i].style;
        let ghost base = cells_of(cv.take(i as int));
        let mut j: usize = 0;
        assert(base + explode(cs@.take(0), style) =~= base);
        while j < cs.len()
            invariant
                cv == runs_view(cell@),
                i < cell.len(),
                j <= cs.len(),
                base == cells_of(cv.take(i as int)),
                pack_fold(base + explode(cs@.take(j as int), style), cw as nat) == (PackView {
                    out: runs_view(out@),
                    w: w as nat,
                    done,
                }),
            decreases cs.len() - j,
        {
            let ghost prev = base + explode(cs@.take(j as int), style);
            proof {
                crate::layout::lemma_explode_take(cs@, style, j as int);
                assert(base + explode(cs@.take(j + 1), style) =~= prev.push(
                    char_run(cs@[j as int], style),
                ));
                assert(prev.push(char_run(cs@[j as int], style)).drop_last() =~= prev);
                lemma_pack_width(prev, cw as nat);
            }
            if !done {
                let ch = cs[j];
                let wc = char_display_w(ch);
                if wc > cw - w {
                    done = true;
                } else {
                    let n = out.len();
                    if n > 0 && out[n - 1].style == style {
                        let ghost before = out@;
                        let mut last = out.pop().unwrap();
                        push_char(&mut last.text, ch);
                        out.push(last);
                        assert(runs_view(out@) =~= runs_view(before).drop_last().push(
                            (runs_view(before).last().0.push(ch), style),
                        ));
                    } else {
                        let mut t = String::new();
                        push_char(&mut t, ch);
                        let r = Styled { text: t, style };
                        let ghost before = out@;
                        out.push(r);
                        assert(runs_view(out@) =~= runs_view(before).push(char_run(ch, style)));
                    }
                    w = w + wc;
                }
            }
            j = j + 1;
        }
        proof {
            assert(cs@.take(j as int) =~= cs@);
            assert(cv.take(i + 1) =~= cv.take(i as int).push(cv[i as int]));
            crate::layout::lemma_cells_of_push(cv.take(i as int), cv[i as int]);
        }
        i = i + 1;
    }
    assert(cv.take(i as int) =~= cv);
    out
}

/// Style of table borders and separators.
pub open spec fn sep_style() -> Style {
    Style { fg: Color::BrightBlack, bg: Color::Reset, ..plain_style() }
}

/// Header cells are bold, and take the header color unless they carry a
/// color of their own.
pub open spec fn header_run(r: Run) -> Run {
    (
        r.0,
        Style {
            bold: true,
            fg: if r.1.fg == Color::Reset || r.1.fg == Color::Unset {
                Color::BrightYellow
            } else {
                r.1.fg
            },
            ..r.1
        },
    )
}

/// Columns available for text inside a column of width `w` (one space of
/// padding on each side, at least one column).
pub open spec fn inner_width(w: usize) -> nat {
    let x = ssub(w as nat, 2);
    if x > 1 {
        x
    } else {
        1
    }
}

/// Left and right padding of cell content for an alignment.
pub open spec fn split_pad(pad: nat, a: Align) -> (nat, nat) {
    match a {
        Align::Right => (pad, 0),
        Align::Center => (pad / 2, (pad - pad / 2) as nat),
        _ => (0, pad),
    }
}

/// The runs of cell `ci` of a row line, followed by the column separator.
pub open spec fn cell_line_runs(row: RowV, header: bool, aligns: Seq<Align>, ws: Seq<usize>, ci: int) -> Seq<
    Run,
> {
    let inner = inner_width(ws[ci]);
    let cell = if ci < row.len() {
        row[ci]
    } else {
        Seq::empty()
    };
    let packed0 = pack(cell, inner);
    let packed = if header {
        packed0.map_values(|r: Run| header_run(r))
    } else {
        packed0
    };
    let pad = ssub(inner, cell_width(packed));
    let align = if ci < aligns.len() {
        aligns[ci]
    } else {
        Align::Unspecified
    };
    let (pl, pr) = split_pad(pad, align);
    seq![(seq![' '], plain_style()), (spaces(pl), plain_style())] + packed + seq![
        (spaces(pr), plain_style()),
        (seq![' '], plain_style()),
        (seq!['\u{2502}'], sep_style()),
    ]
}

/// The leading separator and the first `k` cells of a row line.
pub open spec fn row_runs(row: RowV, header: bool, aligns: Seq<Align>, ws: Seq<usize>, k: int) -> Seq<
    Run,
>
    decreases k,
{
    if k <= 0 {
        seq![(seq!['\u{2502}'], sep_style())]
    } else {
        row_runs(row, header, aligns, ws, k - 1) + cell_line_runs(row, header, aligns, ws, k - 1)
    }
}

/// The display line of a table row.
pub open spec fn row_line(row: RowV, header: bool, aligns: Seq<Align>, ws: Seq<usize>) -> Seq<Run> {
    row_runs(row, header, aligns, ws, ws.len() as int)
}

/// A line made of one border string.
pub open spec fn border_line(left: char, junction: char, right: char, fill: char, ws: Seq<usize>) -> Seq<
    Run,
> {
    seq![(border(left, junction, right, fill, ws), sep_style())]
}

/// A row's line followed by its divider: a double line under the header, a
/// single line between body rows, nothing after the last row.
pub open spec fn row_block(rows: Seq<RowV>, aligns: Seq<Align>, ws: Seq<usize>, ri: int) -> Seq<
    Seq<Run>,
> {
    seq![row_line(rows[ri], ri == 0, aligns, ws)] + if ri == 0 {
        seq![border_line('\u{255E}', '\u{256A}', '\u{2561}', '\u{2550}', ws)]
    } else if ri < rows.len() - 1 {
        seq![border_line('\u{251C}', '\u{253C}', '\u{2524}', '\u{2500}', ws)]
    } else {
        Seq::empty()
    }
}

/// The lines of the first `k` rows with their dividers.
pub open spec fn body_lines(rows: Seq<RowV>, aligns: Seq<Align>, ws: Seq<usize>, k: int) -> Seq<
    Seq<Run>,
>
    decreases k,
{
    if k <= 0 {
        Seq::empty()
    } else {
        body_lines(rows, aligns, ws, k - 1) + row_block(rows, aligns, ws, k - 1)
    }
}

/// Column widths of a table fitted to `width` columns: the natural widths,
/// shrunk until they leave room for the vertical separators.
pub open spec fn table_widths(rows: Seq<RowV>, width: nat) -> Seq<usize> {
    shrink(natural_widths(rows), ssub(width, sadd(max_len(rows), 1)))
}

/// The display lines of a table whose first row is the header.
pub open spec fn table_lines(rows: Seq<RowV>, aligns: Seq<Align>, width: nat) -> Seq<Seq<Run>> {
    if rows.len() == 0 || max_len(rows) == 0 {
        Seq::empty()
    } else {
        let ws = table_widths(rows, width);
        seq![border_line('\u{250C}', '\u{252C}', '\u{2510}', '\u{2500}', ws)] + body_lines(
            rows,
            aligns,
            ws,
            rows.len() as int,
        ) + seq![border_line('\u{2514}', '\u{2534}', '\u{2518}', '\u{2500}', ws)]
    }
}

fn sep_style_exec() -> (s: Style)
    ensures
        s == sep_style(),
{
    Style { fg: Color::BrightBlack, bg: Color::Reset, ..Style::default() }
}

fn one_char(c: char, style: Style) -> (r: Styled)
    ensures
        r@ == (seq![c], style),
{
    let mut t = String::new();
    push_char(&mut t, c);
    Styled { text: t, style }
}

fn header_restyle(runs: Vec<Styled>) -> (out: Vec<Styled>)
    ensures
        runs_view(out@) == runs_view(runs@).map_values(|r: Run| header_run(r)),
{
    let mut out: Vec<Styled> = Vec::new();
    let mut runs = runs;
    let ghost rv = runs_view(runs@);
    let n = runs.len();
    let mut i: usize = 0;
    assert(runs@.skip(0) =~= runs@);
    while i < n
        invariant
            n == rv.len(),
            i <= n,
            runs_view(runs@) == rv.skip(i as int),
            runs@.len() == n - i,
            runs_view(out@) =~= rv.take(i as int).map_values(|r: Run| header_run(r)),
        decreases n - i,
    {
        assert(runs_view(runs@)[0] == runs@[0]@);
        assert(rv.skip(i as int)[0] == rv[i as int]);
        let ghost old_runs = runs@;
        let r = runs.remove(0);
        assert forall|k: int| 0 <= k < runs@.len() implies runs_view(runs@)[k] == rv.skip(i + 1)[k] by {
            assert(runs@[k] == old_runs[k + 1]);
            assert(runs_view(old_runs)[k + 1] == old_runs[k + 1]@);
        }
        assert(r@ == rv[i as int]);
        let mut st = r.style;
        st.bold = true;
        if st.fg == Color::Reset || st.fg == Color::Unset {
            st.fg = Color::BrightYellow;
        }
        let nr = Styled { text: r.text, style: st };
        let ghost before = out@;
        out.push(nr);
        assert(runs_view(runs@) =~= rv.skip(i + 1));
        assert(rv.take(i + 1).map_values(|r: Run| header_run(r)) =~= rv.take(i as int).map_values(
            |r: Run| header_run(r),
        ).push(header_run(rv[i as int])));
        assert(runs_view(out@) =~= runs_view(before).push(nr@));
        i = i + 1;
    }
    assert(rv.take(i as int) =~= rv);
    out
}

fn cell_runs_exec(
    row: &Vec<Vec<Styled>>,
    header: bool,
    aligns: &Vec<Align>,
    col_w: &Vec<usize>,
    ci: usize,
    lruns: &mut Vec<Styled>,
)
    requires
        ci < col_w.len(),
    ensures
        runs_view(final(lruns)@) == runs_view(old(lruns)@) + cell_line_runs(
            row_view(row@),
            header,
            aligns@,
            col_w@,
            ci as int,
        ),
{
    let cw = col_w[ci];
    let x = cw.saturating_sub(2);
    let inner = if x > 1 {
        x
    } else {
        1
    };
    let empty: Vec<Styled> = Vec::new();
    let ghost rv = row_view(row@);
    let packed0 = if ci < row.len() {
        assert(rv[ci as int] == runs_view(row@[ci as int]@));
        pack_cell(&row[ci], inner)
    } else {
        assert(runs_view(empty@) =~= Seq::<Run>::empty());
        pack_cell(&empty, inner)
    };
    let packed = if header {
        header_restyle(packed0)
    } else {
        packed0
    };
    let content_w = cell_display_width(&packed);
    let pad = inner.saturating_sub(content_w);
    let align = if ci < aligns.len() {
        aligns[ci]
    } else {
        Align::Unspecified
    };
    let (pl, pr) = match align {
        Align::Right => (pad, 0),
        Align::Center => (pad / 2, pad - pad / 2),
        _ => (0, pad),
    };
    let ghost before = runs_view(lruns@);
    let mut packed = packed;
    let ghost pv = runs_view(packed@);
    let mut pieces: Vec<Styled> = Vec::new();
    pieces.push(one_char(' ', Style::default()));
    pieces.push(Styled { text: spaces_string(pl), style: Style::default() });
    pieces.append(&mut packed);
    pieces.push(Styled { text: spaces_string(pr), style: Style::default() });
    pieces.push(one_char(' ', Style::default()));
    pieces.push(one_char('\u{2502}', sep_style_exec()));
    assert(runs_view(pieces@) =~= cell_line_runs(rv, header, aligns@, col_w@, ci as int));
    let ghost l0 = lruns@;
    lruns.append(&mut pieces);
    assert(runs_view(lruns@) =~= before + cell_line_runs(rv, header, aligns@, col_w@, ci as int));
}

fn row_line_exec(row: &Vec<Vec<Styled>>, header: bool, aligns: &Vec<Align>, col_w: &Vec<usize>) -> (l:
    Line)
    ensures
        l@ == row_line(row_view(row@), header, aligns@, col_w@),
{
    let mut lruns: Vec<Styled> = Vec::new();
    lruns.push(one_char('\u{2502}', sep_style_exec()));
    assert(runs_view(lruns@) =~= row_runs(row_view(row@), header, aligns@, col_w@, 0));
    let mut ci: usize = 0;
    while ci < col_w.len()
        invariant
            ci <= col_w.len(),
            runs_view(lruns@) == row_runs(row_view(row@), header, aligns@, col_w@, ci as int),
        decreases col_w.len() - ci,
    {
        cell_runs_exec(row, header, aligns, col_w, ci, &mut lruns);
        ci = ci + 1;
    }
    Line { runs: lruns }
}

fn border_line_exec(left: char, junction: char, right: char, fill: char, col_w: &Vec<usize>) -> (l:
    Line)
    ensures
        l@ == border_line(left, junction, right, fill, col_w@),
{
    let s = table_border(left, junction, right, fill, col_w);
    let mut runs: Vec<Styled> = Vec::new();
    runs.push(Styled { text: s, style: sep_style_exec() });
    let l = Line { runs };
    assert(l@ =~= border_line(left, junction, right, fill, col_w@));
    l
}

fn push_line(out: &mut Vec<Line>, l: Line)
    ensures
        lines_view(final(out)@) == lines_view(old(out)@).push(l@),
{
    out.push(l);
    assert(lines_view(out@) =~= lines_view(old(out)@).push(l@));
}

/// Render a table. `rows[0]` is the header row.
pub fn render_table(rows: &Vec<Vec<Vec<Styled>>>, aligns: &Vec<Align>, width: usize, out: &mut Vec<Line>)
    ensures
        lines_view(final(out)@) == lines_view(old(out)@) + table_lines(
            rows_view(rows@),
            aligns@,
            width as nat,
        ),
{
    let ghost rv = rows_view(rows@);
    let ghost out0 = lines_view(out@);
    if rows.len() == 0 {
        assert(out0 + table_lines(rv, aligns@, width as nat) =~= out0);
        return;
    }
    let ncols = max_row_len(rows);
    if ncols == 0 {
        assert(out0 + table_lines(rv, aligns@, width as nat) =~= out0);
        return;
    }
    let mut col_w = natural_column_widths(rows, ncols);
    let border_w = ncols.saturating_add(1);
    let avail = width.saturating_sub(border_w);
    let total = sum_widths(&col_w);
    if total > avail {
        shrink_columns(&mut col_w, avail);
    }
    let ghost ws = table_widths(rv, width as nat);
    assert(col_w@ == ws);
    push_line(out, border_line_exec('\u{250C}', '\u{252C}', '\u{2510}', '\u{2500}', &col_w));
    let mut ri: usize = 0;
    while ri < rows.len()
        invariant
            rv == rows_view(rows@),
            rows.len() > 0,
            col_w@ == ws,
            ri <= rows.len(),
            lines_view(out@) == out0 + seq![border_line('\u{250C}', '\u{252C}', '\u{2510}', '\u{2500}', ws)]
                + body_lines(rv, aligns@, ws, ri as int),
        decreases rows.len() - ri,
    {
        let is_header = ri == 0;
        assert(rv[ri as int] == row_view(rows@[ri as int]@));
        push_line(out, row_line_exec(&rows[ri], is_header, aligns, &col_w));
        if is_header {
            push_line(out, border_line_exec('\u{255E}', '\u{256A}', '\u{2561}', '\u{2550}', &col_w));
        } else if ri < rows.len() - 1 {
            push_line(out, border_line_exec('\u{251C}', '\u{253C}', '\u{2524}', '\u{2500}', &col_w));
        }
        assert(lines_view(out@) =~= out0 + seq![border_line('\u{250C}', '\u{252C}', '\u{2510}', '\u{2500}', ws)]
            + body_lines(rv, aligns@, ws, ri + 1));
        ri = ri + 1;
    }
    push_line(out, border_line_exec('\u{2514}', '\u{2534}', '\u{2518}', '\u{2500}', &col_w));
    assert(lines_view(out@) =~= out0 + table_lines(rv, aligns@, width as nat));
}

/// The width of a cell is its display width (capped at `usize::MAX`).
pub proof fn lemma_cell_width(runs: Seq<Run>)
    ensures
        cell_width(runs) == clamp(runs_width(runs)),
    decreases runs.len(),
{
    if runs.len() > 0 {
        lemma_cell_width(runs.drop_last());
        lemma_runs_width_push(runs.drop_last(), runs.last());
        assert(runs.drop_last().push(runs.last()) =~= runs);
        lemma_clamp_add(runs_width(runs.drop_last()), text_width(runs.last().0));
        lemma_clamp_add(runs_width(runs.drop_last()), clamp(text_width(runs.last().0)));
    }
}

/// The runs kept by packing are exactly as wide as the width it counted.
pub proof fn lemma_pack_runs_width(cells: Seq<Run>, cw: nat)
    requires
        single_chars(cells),
    ensures
        runs_width(pack_fold(cells, cw).out) == pack_fold(cells, cw).w,
    decreases cells.len(),
{
    if cells.len() == 0 {
        assert(runs_text(Seq::<Run>::empty()) == Seq::<char>::empty());
    } else {
        let pre = cells.drop_last();
        assert(single_chars(pre)) by {
            assert forall|i: int| 0 <= i < pre.len() implies #[trigger] pre[i].0.len() == 1 by {
                assert(pre[i] == cells[i]);
            }
        }
        lemma_pack_runs_width(pre, cw);
        let s = pack_fold(pre, cw);
        let cell = cells.last();
        assert(cell.0.len() == 1);
        let c = cell.0[0];
        assert(cell.0 =~= seq![c]);
        lemma_char_width_single(c);
        if !s.done && s.w + char_width(c) <= cw {
            if s.out.len() > 0 && s.out.last().1 == cell.1 {
                let last = s.out.last();
                let rest = s.out.drop_last();
                lemma_runs_width_push(rest, last);
                lemma_runs_width_push(rest, (last.0.push(c), cell.1));
                assert(rest.push(last) =~= s.out);
                assert(last.0.push(c).drop_last() =~= last.0);
            } else {
                lemma_runs_width_push(s.out, cell);
            }
        }
    }
}

/// Restyling a header keeps its text.
pub proof fn lemma_header_text(runs: Seq<Run>)
    ensures
        runs_text(runs.map_values(|r: Run| header_run(r))) == runs_text(runs),
    decreases runs.len(),
{
    if runs.len() > 0 {
        lemma_header_text(runs.drop_last());
        assert(runs.map_values(|r: Run| header_run(r)).drop_last() =~= runs.drop_last().map_values(
            |r: Run| header_run(r),
        ));
    }
}

/// `n` spaces are `n` columns wide, and so are `n` copies of a character of
/// width one.
pub proof fn lemma_rep_width(c: char, n: nat)
    requires
        char_width(c) == 1,
    ensures
        text_width(rep(c, n)) == n,
    decreases n,
{
    if n > 0 {
        lemma_rep_width(c, (n - 1) as nat);
        assert(rep(c, n).drop_last() =~= rep(c, (n - 1) as nat));
    }
}

pub proof fn lemma_spaces_width(n: nat)
    ensures
        text_width(spaces(n)) == n,
{
    assert(spaces(n) =~= rep(' ', n));
    lemma_rep_width(' ', n);
}

/// The box-drawing characters of borders are one column wide.
pub proof fn lemma_box_width()
    ensures
        char_width('\u{2502}') == 1,
        char_width('\u{250C}') == 1,
        char_width('\u{252C}') == 1,
        char_width('\u{2510}') == 1,
        char_width('\u{2500}') == 1,
        char_width('\u{255E}') == 1,
        char_width('\u{256A}') == 1,
        char_width('\u{2561}') == 1,
        char_width('\u{2550}') == 1,
        char_width('\u{251C}') == 1,
        char_width('\u{253C}') == 1,
        char_width('\u{2524}') == 1,
        char_width('\u{2514}') == 1,
        char_width('\u{2534}') == 1,
        char_width('\u{2518}') == 1,
        char_width(' ') == 1,
{
}

proof fn lemma_width_two(a: Run, b: Run)
    ensures
        runs_width(seq![a, b]) == text_width(a.0) + text_width(b.0),
{
    lemma_runs_width_push(Seq::empty(), a);
    lemma_runs_width_push(seq![a], b);
    assert(Seq::<Run>::empty().push(a) =~= seq![a]);
    assert(seq![a].push(b) =~= seq![a, b]);
    assert(runs_text(Seq::<Run>::empty()) == Seq::<char>::empty());
}

proof fn lemma_width_three(a: Run, b: Run, c: Run)
    ensures
        runs_width(seq![a, b, c]) == text_width(a.0) + text_width(b.0) + text_width(c.0),
{
    lemma_width_two(a, b);
    lemma_runs_width_push(seq![a, b], c);
    assert(seq![a, b].push(c) =~= seq![a, b, c]);
}

/// Each cell of a row line takes its inner width plus three columns: the
/// padding space on each side and the separator.
pub proof fn lemma_cell_line_width(row: RowV, header: bool, aligns: Seq<Align>, ws: Seq<usize>, ci: int)
    requires
        0 <= ci < ws.len(),
    ensures
        runs_width(cell_line_runs(row, header, aligns, ws, ci)) == inner_width(ws[ci]) + 3,
{
    let inner = inner_width(ws[ci]);
    let cell = if ci < row.len() {
        row[ci]
    } else {
        Seq::empty()
    };
    let cells = cells_of(cell);
    lemma_cells_single(cell);
    lemma_pack_runs_width(cells, inner);
    lemma_pack_width(cells, inner);
    let packed0 = pack(cell, inner);
    let packed = if header {
        packed0.map_values(|r: Run| header_run(r))
    } else {
        packed0
    };
    lemma_header_text(packed0);
    assert(runs_width(packed) == runs_width(packed0));
    lemma_cell_width(packed);
    let pad = ssub(inner, cell_width(packed));
    let align = if ci < aligns.len() {
        aligns[ci]
    } else {
        Align::Unspecified
    };
    let (pl, pr) = split_pad(pad, align);
    assert(pl + pr == pad);
    let a = (seq![' '], plain_style());
    let b = (spaces(pl), plain_style());
    let c = (spaces(pr), plain_style());
    let d = (seq![' '], plain_style());
    let e = (seq!['\u{2502}'], sep_style());
    lemma_width_two(a, b);
    lemma_width_three(c, d, e);
    lemma_char_width_single(' ');
    lemma_char_width_single('\u{2502}');
    lemma_box_width();
    lemma_spaces_width(pl);
    lemma_spaces_width(pr);
    lemma_runs_width_concat(seq![a, b], packed);
    lemma_runs_width_concat(seq![a, b] + packed, seq![c, d, e]);
}

/// In every row of a table, the header included, the text of cell `ci` is
/// padded to the column's inner width by a run of spaces on each side: all
/// the padding on the left in a right-aligned column, half of it (rounded
/// down) on the left in a centered column, and none on the left otherwise.
pub proof fn law_cell_alignment(row: RowV, header: bool, aligns: Seq<Align>, ws: Seq<usize>, ci: int)
    requires
        0 <= ci < ws.len(),
    ensures
        ({
            let c = cell_line_runs(row, header, aligns, ws, ci);
            let n = c.len();
            let left = c[1].0.len();
            let right = c[n - 3].0.len();
            &&& n >= 5
            &&& c[1].0 == spaces(left)
            &&& c[n - 3].0 == spaces(right)
            &&& left + runs_width(c.subrange(2, n - 3)) + right == inner_width(ws[ci])
            &&& (ci < aligns.len() && aligns[ci] == Align::Right) ==> right == 0
            &&& (ci < aligns.len() && aligns[ci] == Align::Center) ==> left == (left + right) / 2
            &&& !(ci < aligns.len() && (aligns[ci] == Align::Right || aligns[ci] == Align::Center))
                ==> left == 0
        }),
{
    let inner = inner_width(ws[ci]);
    let cell = if ci < row.len() {
        row[ci]
    } else {
        Seq::empty()
    };
    let cells = cells_of(cell);
    lemma_cells_single(cell);
    lemma_pack_runs_width(cells, inner);
    lemma_pack_width(cells, inner);
    let packed0 = pack(cell, inner);
    let packed = if header {
        packed0.map_values(|r: Run| header_run(r))
    } else {
        packed0
    };
    lemma_header_text(packed0);
    assert(runs_width(packed) == runs_width(packed0));
    lemma_cell_width(packed);
    let pad = ssub(inner, cell_width(packed));
    let align = if ci < aligns.len() {
        aligns[ci]
    } else {
        Align::Unspecified
    };
    let (pl, pr) = split_pad(pad, align);
    let c = cell_line_runs(row, header, aligns, ws, ci);
    let n = c.len();
    assert(c == seq![(seq![' '], plain_style()), (spaces(pl), plain_style())] + packed + seq![
        (spaces(pr), plain_style()),
        (seq![' '], plain_style()),
        (seq!['\u{2502}'], sep_style()),
    ]);
    assert(n == packed.len() + 5);
    assert(c[1].0 == spaces(pl));
    assert(c[n - 3].0 == spaces(pr));
    assert(c.subrange(2, n - 3) =~= packed);
    assert(spaces(pl).len() == pl);
    assert(spaces(pr).len() == pr);
}

/// The separator plus `inner + 3` columns for each of the first `k` cells.
pub open spec fn row_width(ws: Seq<usize>, k: int) -> nat
    decreases k,
{
    if k <= 0 {
        1
    } else {
        row_width(ws, k - 1) + inner_width(ws[k - 1]) + 3
    }
}

pub proof fn lemma_row_runs_width(row: RowV, header: bool, aligns: Seq<Align>, ws: Seq<usize>, k: int)
    requires
        0 <= k <= ws.len(),
    ensures
        runs_width(row_runs(row, header, aligns, ws, k)) == row_width(ws, k),
    decreases k,
{
    if k <= 0 {
        lemma_runs_width_push(Seq::empty(), (seq!['\u{2502}'], sep_style()));
        assert(Seq::<Run>::empty().push((seq!['\u{2502}'], sep_style())) =~= seq![
            (seq!['\u{2502}'], sep_style()),
        ]);
        assert(runs_text(Seq::<Run>::empty()) == Seq::<char>::empty());
        lemma_char_width_single('\u{2502}');
        lemma_box_width();
    } else {
        lemma_row_runs_width(row, header, aligns, ws, k - 1);
        lemma_cell_line_width(row, header, aligns, ws, k - 1);
        lemma_runs_width_concat(
            row_runs(row, header, aligns, ws, k - 1),
            cell_line_runs(row, header, aligns, ws, k - 1),
        );
    }
}

pub proof fn lemma_border_body_width(ws: Seq<usize>, junction: char, fill: char)
    requires
        char_width(junction) == 1,
        char_width(fill) == 1,
    ensures
        ws.len() > 0 ==> text_width(border_body(ws, junction, fill)) == sum(ws) + ws.len() - 1,
        ws.len() == 0 ==> text_width(border_body(ws, junction, fill)) == 0,
    decreases ws.len(),
{
    if ws.len() == 0 {
        assert(text_width(Seq::<char>::empty()) == 0);
    } else {
        let pre = ws.drop_last();
        lemma_border_body_width(pre, junction, fill);
        let j = if ws.len() > 1 {
            seq![junction]
        } else {
            Seq::<char>::empty()
        };
        lemma_char_width_single(junction);
        assert(text_width(Seq::<char>::empty()) == 0);
        lemma_rep_width(fill, ws.last() as nat);
        lemma_text_width_concat(border_body(pre, junction, fill), j);
        lemma_text_width_concat(border_body(pre, junction, fill) + j, rep(fill, ws.last() as nat));
    }
}

/// A border for columns `ws` is one column wider than the columns and the
/// separators between and around them.
pub proof fn lemma_border_width(left: char, junction: char, right: char, fill: char, ws: Seq<usize>)
    requires
        char_width(left) == 1,
        char_width(junction) == 1,
        char_width(right) == 1,
        char_width(fill) == 1,
        ws.len() > 0,
    ensures
        runs_width(border_line(left, junction, right, fill, ws)) == 1 + ws.len() + sum(ws),
{
    lemma_border_body_width(ws, junction, fill);
    lemma_char_width_single(left);
    lemma_char_width_single(right);
    lemma_text_width_concat(seq![left], border_body(ws, junction, fill));
    lemma_text_width_concat(seq![left] + border_body(ws, junction, fill), seq![right]);
    let r = (border(left, junction, right, fill, ws), sep_style());
    lemma_runs_width_push(Seq::empty(), r);
    assert(Seq::<Run>::empty().push(r) =~= seq![r]);
    assert(runs_text(Seq::<Run>::empty()) == Seq::<char>::empty());
}

pub proof fn lemma_widest_max(ws: Seq<usize>)
    ensures
        widest(ws) matches Some(i) ==> forall|j: int| 0 <= j < ws.len() ==> ws[j] <= ws[i],
    decreases ws.len(),
{
    if ws.len() > 0 {
        let pre = ws.drop_last();
        lemma_widest_max(pre);
        lemma_widest(pre);
        lemma_widest(ws);
        match widest(pre) {
            Some(p) => {
                assert(pre[p] == ws[p]);
                assert forall|j: int| 0 <= j < pre.len() implies pre[j] == ws[j] by {}
            },
            None => {
                assert forall|j: int| 0 <= j < pre.len() implies ws[j] == 0 by {
                    assert(pre[j] == ws[j]);
                }
            },
        }
    }
}

proof fn lemma_sum_bound(ws: Seq<usize>, m: nat)
    requires
        forall|j: int| 0 <= j < ws.len() ==> ws[j] <= m,
    ensures
        sum(ws) <= m * ws.len(),
    decreases ws.len(),
{
    if ws.len() > 0 {
        lemma_sum_bound(ws.drop_last(), m);
        assert(m * ws.len() == m * (ws.len() - 1) + m) by (nonlinear_arith);
    }
}

/// Shrinking keeps the number of columns.
pub proof fn lemma_shrink_len(ws: Seq<usize>, avail: nat)
    ensures
        shrink(ws, avail).len() == ws.len(),
    decreases sum(ws),
{
    if clamp(sum(ws)) > avail {
        lemma_widest(ws);
        match widest(ws) {
            Some(i) => {
                lemma_sum_update(ws, i, (ws[i] - 1) as usize);
                lemma_shrink_len(ws.update(i, (ws[i] - 1) as usize), avail);
            },
            None => {},
        }
    }
}

/// Shrinking makes the columns fit: their widths add up to at most
/// `avail`.
pub proof fn law_shrink_fits(ws: Seq<usize>, avail: nat)
    requires
        avail < usize::MAX,
    ensures
        sum(shrink(ws, avail)) <= avail,
    decreases sum(ws),
{
    if clamp(sum(ws)) > avail {
        lemma_widest(ws);
        match widest(ws) {
            Some(i) => {
                lemma_sum_update(ws, i, (ws[i] - 1) as usize);
                law_shrink_fits(ws.update(i, (ws[i] - 1) as usize), avail);
            },
            None => {
                lemma_sum_bound(ws, 0);
            },
        }
    }
}

/// Shrinking takes away exactly the excess: the widths keep their number,
/// add up to the smaller of their sum and `avail`, and no column grows (so
/// nothing changes when they already fit).
pub proof fn law_shrink_exact(ws: Seq<usize>, avail: nat)
    requires
        sum(ws) <= usize::MAX,
    ensures
        shrink(ws, avail).len() == ws.len(),
        sum(shrink(ws, avail)) == if sum(ws) <= avail {
            sum(ws)
        } else {
            avail
        },
        forall|j: int| 0 <= j < ws.len() ==> #[trigger] shrink(ws, avail)[j] <= ws[j],
    decreases sum(ws),
{
    lemma_shrink_len(ws, avail);
    if clamp(sum(ws)) > avail {
        lemma_widest(ws);
        match widest(ws) {
            Some(i) => {
                let next = ws.update(i, (ws[i] - 1) as usize);
                lemma_sum_update(ws, i, (ws[i] - 1) as usize);
                assert(shrink(ws, avail) == shrink(next, avail));
                law_shrink_exact(next, avail);
                assert forall|j: int| 0 <= j < ws.len() implies #[trigger] shrink(ws, avail)[j] <= ws[j] by {
                    assert(shrink(next, avail)[j] <= next[j]);
                }
            },
            None => {
                lemma_sum_bound(ws, 0);
            },
        }
    }
}

/// Columns cut from `old` are within one column of every other column.
pub open spec fn cut_level(old: Seq<usize>, ws: Seq<usize>) -> bool {
    &&& ws.len() == old.len()
    &&& forall|i: int| 0 <= i < ws.len() ==> #[trigger] ws[i] <= old[i]
    &&& forall|i: int, j: int|
        0 <= i < ws.len() && 0 <= j < ws.len() && #[trigger] ws[i] < old[i] ==> #[trigger] ws[j] <= ws[i]
            + 1
}

proof fn lemma_cut_level(old: Seq<usize>, ws: Seq<usize>, avail: nat)
    requires
        cut_level(old, ws),
    ensures
        cut_level(old, shrink(ws, avail)),
    decreases sum(ws),
{
    lemma_shrink_len(ws, avail);
    if clamp(sum(ws)) > avail {
        lemma_widest(ws);
        lemma_widest_max(ws);
        match widest(ws) {
            Some(m) => {
                let next = ws.update(m, (ws[m] - 1) as usize);
                lemma_sum_update(ws, m, (ws[m] - 1) as usize);
                assert(shrink(ws, avail) == shrink(next, avail));
                assert forall|i: int, j: int|
                    0 <= i < next.len() && 0 <= j < next.len() && #[trigger] next[i] < old[i] implies #[trigger] next[j]
                        <= next[i] + 1 by {
                    if i != m {
                        assert(next[i] == ws[i]);
                        assert(ws[j] <= ws[i] + 1);
                    } else {
                        assert(ws[j] <= ws[m]);
                    }
                }
                assert(cut_level(old, next));
                lemma_cut_level(old, next, avail);
            },
            None => {},
        }
    }
}

/// Shrinking cuts only the widest columns, down to a common level: every
/// column that was narrowed is at most one column narrower than any other
/// column after shrinking.
pub proof fn law_shrink_levels(ws: Seq<usize>, avail: nat)
    ensures
        forall|i: int, j: int|
            0 <= i < ws.len() && 0 <= j < ws.len() && #[trigger] shrink(ws, avail)[i] < ws[i] ==> #[trigger] shrink(
                ws,
                avail,
            )[j] <= shrink(ws, avail)[i] + 1,
{
    assert(cut_level(ws, ws));
    lemma_cut_level(ws, ws, avail);
}

/// Shrinking narrows only the widest columns, so columns at least `m` wide
/// stay so when `avail` leaves `m` columns for each.
pub proof fn law_shrink_keeps_minimum(ws: Seq<usize>, avail: nat, m: nat)
    requires
        m >= 1,
        avail >= m * ws.len(),
        forall|j: int| 0 <= j < ws.len() ==> ws[j] >= m,
    ensures
        forall|j: int| 0 <= j < shrink(ws, avail).len() ==> #[trigger] shrink(ws, avail)[j] >= m,
    decreases sum(ws),
{
    lemma_shrink_len(ws, avail);
    if clamp(sum(ws)) > avail {
        lemma_widest(ws);
        lemma_widest_max(ws);
        match widest(ws) {
            Some(i) => {
                if ws[i] <= m {
                    lemma_sum_bound(ws, m);
                }
                assert(ws[i] > m);
                let next = ws.update(i, (ws[i] - 1) as usize);
                lemma_sum_update(ws, i, (ws[i] - 1) as usize);
                assert(shrink(ws, avail) == shrink(next, avail));
                law_shrink_keeps_minimum(next, avail, m);
            },
            None => {},
        }
    }
}

proof fn lemma_row_width_wide(ws: Seq<usize>, k: int)
    requires
        0 <= k <= ws.len(),
        forall|j: int| 0 <= j < ws.len() ==> ws[j] >= 3,
    ensures
        row_width(ws, k) == 1 + k + sum(ws.take(k)),
    decreases k,
{
    if k > 0 {
        lemma_row_width_wide(ws, k - 1);
        assert(ws.take(k).drop_last() =~= ws.take(k - 1));
    }
}

proof fn lemma_body_lines_width(rows: Seq<RowV>, aligns: Seq<Align>, ws: Seq<usize>, k: int, bound: nat)
    requires
        0 <= k <= rows.len(),
        ws.len() > 0,
        row_width(ws, ws.len() as int) <= bound,
        1 + ws.len() + sum(ws) <= bound,
    ensures
        forall|j: int| 0 <= j < body_lines(rows, aligns, ws, k).len() ==> runs_width(
            #[trigger] body_lines(rows, aligns, ws, k)[j],
        ) <= bound,
    decreases k,
{
    if k > 0 {
        lemma_body_lines_width(rows, aligns, ws, k - 1, bound);
        let pre = body_lines(rows, aligns, ws, k - 1);
        let blk = row_block(rows, aligns, ws, k - 1);
        lemma_row_runs_width(rows[k - 1], k - 1 == 0, aligns, ws, ws.len() as int);
        lemma_box_width();
        lemma_border_width('\u{255E}', '\u{256A}', '\u{2561}', '\u{2550}', ws);
        lemma_border_width('\u{251C}', '\u{253C}', '\u{2524}', '\u{2500}', ws);
        assert forall|j: int| 0 <= j < (pre + blk).len() implies runs_width(#[trigger] (pre + blk)[j])
            <= bound by {
            if j >= pre.len() {
                assert((pre + blk)[j] == blk[j - pre.len()]);
            } else {
                assert((pre + blk)[j] == pre[j]);
            }
        }
    }
}

/// Wide tables shrink to fit the terminal: when every column has some
/// content and the terminal leaves at least four columns per table column,
/// no line of a table is wider than the terminal.
pub proof fn law_table_fits(rows: Seq<RowV>, aligns: Seq<Align>, width: nat)
    requires
        width <= usize::MAX,
        width >= 4 * max_len(rows) + 1,
        forall|ci: int| 0 <= ci < max_len(rows) ==> col_max(rows, ci) >= 1,
    ensures
        forall|k: int|
            0 <= k < table_lines(rows, aligns, width).len() ==> runs_width(
                #[trigger] table_lines(rows, aligns, width)[k],
            ) <= width,
{
    if rows.len() > 0 && max_len(rows) > 0 {
        let n = max_len(rows);
        let nat_ws = natural_widths(rows);
        let avail = ssub(width, sadd(n, 1));
        assert(avail == width - n - 1);
        assert forall|j: int| 0 <= j < nat_ws.len() implies nat_ws[j] >= 3 by {
            assert(col_max(rows, j) >= 1);
        }
        let ws = table_widths(rows, width);
        lemma_shrink_len(nat_ws, avail);
        law_shrink_fits(nat_ws, avail);
        law_shrink_keeps_minimum(nat_ws, avail, 3);
        lemma_row_width_wide(ws, ws.len() as int);
        assert(ws.take(ws.len() as int) =~= ws);
        lemma_box_width();
        lemma_border_width('\u{250C}', '\u{252C}', '\u{2510}', '\u{2500}', ws);
        lemma_border_width('\u{2514}', '\u{2534}', '\u{2518}', '\u{2500}', ws);
        lemma_body_lines_width(rows, aligns, ws, rows.len() as int, width);
        let top = seq![border_line('\u{250C}', '\u{252C}', '\u{2510}', '\u{2500}', ws)];
        let body = body_lines(rows, aligns, ws, rows.len() as int);
        let bottom = seq![border_line('\u{2514}', '\u{2534}', '\u{2518}', '\u{2500}', ws)];
        let all = table_lines(rows, aligns, width);
        assert(all == top + body + bottom);
        assert forall|k: int| 0 <= k < all.len() implies runs_width(#[trigger] all[k]) <= width by {
            if k == 0 {
                assert(all[k] == top[0]);
            } else if k < 1 + body.len() {
                assert(all[k] == body[k - 1]);
            } else {
                assert(all[k] == bottom[0]);
            }
        }
    }
}


proof fn lemma_body_lines_exact(rows: Seq<RowV>, aligns: Seq<Align>, ws: Seq<usize>, k: int, w: nat)
    requires
        0 <= k <= rows.len(),
        ws.len() > 0,
        row_width(ws, ws.len() as int) == w,
        1 + ws.len() + sum(ws) == w,
    ensures
        forall|j: int| 0 <= j < body_lines(rows, aligns, ws, k).len() ==> runs_width(
            #[trigger] body_lines(rows, aligns, ws, k)[j],
        ) == w,
    decreases k,
{
    if k > 0 {
        lemma_body_lines_exact(rows, aligns, ws, k - 1, w);
        let pre = body_lines(rows, aligns, ws, k - 1);
        let blk = row_block(rows, aligns, ws, k - 1);
        lemma_row_runs_width(rows[k - 1], k - 1 == 0, aligns, ws, ws.len() as int);
        lemma_box_width();
        lemma_border_width('\u{255E}', '\u{256A}', '\u{2561}', '\u{2550}', ws);
        lemma_border_width('\u{251C}', '\u{253C}', '\u{2524}', '\u{2500}', ws);
        assert forall|j: int| 0 <= j < (pre + blk).len() implies runs_width(#[trigger] (pre + blk)[j])
            == w by {
            if j >= pre.len() {
                assert((pre + blk)[j] == blk[j - pre.len()]);
            } else {
                assert((pre + blk)[j] == pre[j]);
            }
        }
    }
}

/// Every line of a table is equally wide: the natural width (each column
/// its widest cell plus two, and one separator more than there are
/// columns), or the terminal's width when that is smaller. This holds when
/// every column has some content and the terminal leaves at least four
/// columns per table column.
pub proof fn law_table_width_exact(rows: Seq<RowV>, aligns: Seq<Align>, width: nat)
    requires
        width <= usize::MAX,
        width >= 4 * max_len(rows) + 1,
        forall|ci: int| 0 <= ci < max_len(rows) ==> col_max(rows, ci) >= 1,
        sum(natural_widths(rows)) + max_len(rows) + 1 <= usize::MAX,
    ensures
        forall|k: int|
            0 <= k < table_lines(rows, aligns, width).len() ==> runs_width(
                #[trigger] table_lines(rows, aligns, width)[k],
            ) == if sum(natural_widths(rows)) + max_len(rows) + 1 <= width {
                sum(natural_widths(rows)) + max_len(rows) + 1
            } else {
                width
            },
{
    if rows.len() > 0 && max_len(rows) > 0 {
        let n = max_len(rows);
        let nat_ws = natural_widths(rows);
        let avail = ssub(width, sadd(n, 1));
        assert(avail == width - n - 1);
        assert forall|j: int| 0 <= j < nat_ws.len() implies nat_ws[j] >= 3 by {
            assert(col_max(rows, j) >= 1);
        }
        let ws = table_widths(rows, width);
        lemma_shrink_len(nat_ws, avail);
        law_shrink_exact(nat_ws, avail);
        law_shrink_keeps_minimum(nat_ws, avail, 3);
        lemma_row_width_wide(ws, ws.len() as int);
        assert(ws.take(ws.len() as int) =~= ws);
        let w: nat = (1 + n + sum(ws)) as nat;
        lemma_box_width();
        lemma_border_width('\u{250C}', '\u{252C}', '\u{2510}', '\u{2500}', ws);
        lemma_border_width('\u{2514}', '\u{2534}', '\u{2518}', '\u{2500}', ws);
        lemma_body_lines_exact(rows, aligns, ws, rows.len() as int, w);
        let top = seq![border_line('\u{250C}', '\u{252C}', '\u{2510}', '\u{2500}', ws)];
        let body = body_lines(rows, aligns, ws, rows.len() as int);
        let bottom = seq![border_line('\u{2514}', '\u{2534}', '\u{2518}', '\u{2500}', ws)];
        let all = table_lines(rows, aligns, width);
        assert(all == top + body + bottom);
        assert forall|k: int| 0 <= k < all.len() implies runs_width(#[trigger] all[k]) == w by {
            if k == 0 {
                assert(all[k] == top[0]);
            } else if k < 1 + body.len() {
                assert(all[k] == body[k - 1]);
            } else {
                assert(all[k] == bottom[0]);
            }
        }
    }
}

/// Pruning drops exactly the trailing rows whose cells are all empty: what
/// is left is a prefix of the rows, ends with a row that has content (or
/// is empty), and every row dropped has only empty cells.
pub proof fn law_pruned(rows: Seq<RowV>)
    ensures
        pruned(rows) == rows.take(pruned(rows).len() as int),
        pruned(rows).len() <= rows.len(),
        pruned(rows).len() > 0 ==> !row_is_blank(pruned(rows).last()),
        forall|j: int| pruned(rows).len() <= j < rows.len() ==> row_is_blank(#[trigger] rows[j]),
    decreases rows.len(),
{
    if rows.len() > 0 && row_is_blank(rows.last()) {
        let p = rows.drop_last();
        law_pruned(p);
        assert(p.take(pruned(p).len() as int) =~= rows.take(pruned(p).len() as int));
        assert forall|j: int| pruned(rows).len() <= j < rows.len() implies row_is_blank(#[trigger] rows[j]) by {
            if j < p.len() {
                assert(rows[j] == p[j]);
            }
        }
    } else {
        assert(rows.take(rows.len() as int) =~= rows);
    }
}

/// What packing has kept so far is the cells taken up to some point, as
/// wide as `w`; it stops only at a character that does not fit.
spec fn pack_inv(cells: Seq<Run>, s: PackView, cw: nat) -> bool {
    let m = cells_of(s.out).len();
    &&& m <= cells.len()
    &&& cells_of(s.out) == cells.take(m as int)
    &&& s.w == runs_width(cells.take(m as int))
    &&& s.w <= cw
    &&& s.done ==> m < cells.len() && s.w + char_width(cells[m as int].0[0]) > cw
    &&& !s.done ==> m == cells.len()
}

proof fn lemma_pack_inv(cells: Seq<Run>, cw: nat)
    requires
        single_chars(cells),
    ensures
        pack_inv(cells, pack_fold(cells, cw), cw),
    decreases cells.len(),
{
    if cells.len() == 0 {
        assert(cells_of(Seq::<Run>::empty()) == Seq::<Run>::empty());
        assert(cells.take(0) =~= Seq::<Run>::empty());
        assert(runs_text(Seq::<Run>::empty()) == Seq::<char>::empty());
    } else {
        let p = cells.drop_last();
        assert(single_chars(p)) by {
            assert forall|i: int| 0 <= i < p.len() implies #[trigger] p[i].0.len() == 1 by {
                assert(p[i] == cells[i]);
            }
        }
        lemma_pack_inv(p, cw);
        let s = pack_fold(p, cw);
        let m = cells_of(s.out).len();
        let cell = cells.last();
        assert(cell == cells[cells.len() - 1]);
        let c = cell.0[0];
        assert(cell.0 =~= seq![c]);
        assert(p.take(m as int) =~= cells.take(m as int));
        if !s.done {
            assert(m == p.len());
            if s.w + char_width(c) <= cw {
                let s2 = pack_fold(cells, cw);
                assert(cells.take(m as int + 1) =~= cells.take(m as int).push(cell));
                lemma_runs_width_push(cells.take(m as int), cell);
                lemma_char_width_single(c);
                if s.out.len() > 0 && s.out.last().1 == cell.1 {
                    let last = s.out.last();
                    let pre = s.out.drop_last();
                    assert(s.out == pre.push(last));
                    lemma_cells_of_push(pre, last);
                    lemma_cells_of_push(pre, (last.0.push(c), cell.1));
                    assert(explode(last.0.push(c), cell.1) =~= explode(last.0, cell.1).push(char_run(c, cell.1)));
                    assert(s2.out == pre.push((last.0.push(c), cell.1)));
                    assert(cells_of(s2.out) =~= cells_of(s.out).push(cell));
                } else {
                    lemma_cells_of_push(s.out, cell);
                    assert(explode(cell.0, cell.1) =~= seq![cell]);
                    assert(cells_of(s2.out) =~= cells_of(s.out).push(cell));
                }
            }
        }
    }
}

/// Packing keeps the longest prefix of a cell's characters that fits in
/// `cw` columns, each character in the style of its run: the characters of
/// the result are the cell's first ones, they fit, and the next character
/// (if any) would not.
pub proof fn law_pack(runs: Seq<Run>, cw: nat)
    ensures
        cells_of(pack(runs, cw)) == cells_of(runs).take(cells_of(pack(runs, cw)).len() as int),
        runs_width(cells_of(pack(runs, cw))) <= cw,
        cells_of(pack(runs, cw)).len() == cells_of(runs).len() || runs_width(cells_of(pack(runs, cw)))
            + char_width(cells_of(runs)[cells_of(pack(runs, cw)).len() as int].0[0]) > cw,
{
    lemma_cells_single(runs);
    lemma_pack_inv(cells_of(runs), cw);
    let o = cells_of(pack(runs, cw));
    assert(o.len() <= cells_of(runs).len());
    if o.len() == cells_of(runs).len() {
        assert(cells_of(runs).take(o.len() as int) =~= cells_of(runs));
    }
}

/// The divider drawn after row `ri`: a double line under the header, a
/// single line between body rows.
pub open spec fn divider(ri: int, ws: Seq<usize>) -> Seq<Run> {
    if ri == 0 {
        border_line('\u{255E}', '\u{256A}', '\u{2561}', '\u{2550}', ws)
    } else {
        border_line('\u{251C}', '\u{253C}', '\u{2524}', '\u{2500}', ws)
    }
}

proof fn lemma_body_layout(rows: Seq<RowV>, aligns: Seq<Align>, ws: Seq<usize>, k: int)
    requires
        0 <= k <= rows.len(),
    ensures
        body_lines(rows, aligns, ws, k).len() == if k == 0 {
            0
        } else if k < rows.len() || k == 1 {
            2 * k
        } else {
            2 * k - 1
        },
        forall|r: int|
            0 <= r < k ==> body_lines(rows, aligns, ws, k)[2 * r] == row_line(rows[r], r == 0, aligns, ws),
        forall|r: int|
            0 <= r < k && (r == 0 || r < rows.len() - 1) ==> body_lines(rows, aligns, ws, k)[2 * r + 1]
                == divider(r, ws),
    decreases k,
{
    if k > 0 {
        lemma_body_layout(rows, aligns, ws, k - 1);
        let pre = body_lines(rows, aligns, ws, k - 1);
        let blk = row_block(rows, aligns, ws, k - 1);
        let all = body_lines(rows, aligns, ws, k);
        assert(all == pre + blk);
        assert(pre.len() == 2 * (k - 1));
        assert forall|r: int| 0 <= r < k implies all[2 * r] == row_line(rows[r], r == 0, aligns, ws) by {
            if r == k - 1 {
                assert(all[2 * r] == blk[0]);
            } else {
                assert(all[2 * r] == pre[2 * r]);
            }
        }
        assert forall|r: int| 0 <= r < k && (r == 0 || r < rows.len() - 1) implies all[2 * r + 1]
            == divider(r, ws) by {
            if r == k - 1 {
                assert(all[2 * r + 1] == blk[1]);
            } else {
                assert(all[2 * r + 1] == pre[2 * r + 1]);
            }
        }
    }
}

/// Every table row takes one line between a top and a bottom border; a
/// double line divides the header from the body, and a single line divides
/// each body row from the next.
pub proof fn law_table_layout(rows: Seq<RowV>, aligns: Seq<Align>, width: nat)
    requires
        rows.len() > 0,
        max_len(rows) > 0,
    ensures
        table_lines(rows, aligns, width).len() == if rows.len() == 1 {
            4
        } else {
            2 * rows.len() + 1
        },
        table_lines(rows, aligns, width)[0] == border_line(
            '\u{250C}',
            '\u{252C}',
            '\u{2510}',
            '\u{2500}',
            table_widths(rows, width),
        ),
        table_lines(rows, aligns, width).last() == border_line(
            '\u{2514}',
            '\u{2534}',
            '\u{2518}',
            '\u{2500}',
            table_widths(rows, width),
        ),
        forall|r: int|
            0 <= r < rows.len() ==> table_lines(rows, aligns, width)[2 * r + 1] == row_line(
                rows[r],
                r == 0,
                aligns,
                table_widths(rows, width),
            ),
        forall|r: int|
            0 <= r < rows.len() && (r == 0 || r < rows.len() - 1) ==> table_lines(rows, aligns, width)[2
                * r + 2] == divider(r, table_widths(rows, width)),
{
    let ws = table_widths(rows, width);
    let n = rows.len() as int;
    lemma_body_layout(rows, aligns, ws, n);
    let top = seq![border_line('\u{250C}', '\u{252C}', '\u{2510}', '\u{2500}', ws)];
    let body = body_lines(rows, aligns, ws, n);
    let bottom = seq![border_line('\u{2514}', '\u{2534}', '\u{2518}', '\u{2500}', ws)];
    let lines = table_lines(rows, aligns, width);
    assert(lines == top + body + bottom);
    assert forall|r: int| 0 <= r < n implies lines[2 * r + 1] == row_line(rows[r], r == 0, aligns, ws) by {
        assert(lines[2 * r + 1] == body[2 * r]);
    }
    assert forall|r: int| 0 <= r < n && (r == 0 || r < n - 1) implies lines[2 * r + 2] == divider(r, ws) by {
        assert(lines[2 * r + 2] == body[2 * r + 1]);
    }
}

} // verus!
