//! Laying out markdown events into styled display lines.
use vstd::prelude::*;
use crate::cmark::{cmark_events, collect_events, EndTag, MdEvent, ParsedMarkdown, StartTag};
use crate::layout::{block_push, flush_inline, flush_lines, flush_marker, lemma_char_width_single, Block};
use crate::render::{
    char_display_w, char_width, lemma_text_width_concat, lines_view, plain_style, runs_view, text_width,
    Color, Line, Run, Style, Styled,
};
use crate::table::{prune_table_rows, pruned, render_table, rep, row_view, rows_view, table_lines, Align, RowV};
use crate::text::{
    chars_of, clamp, dec_digits, decimal, lemma_clamp_add, opt_view, push_char,
};

verus! {

/// Style of a heading of level `level` (1 to 6): levels 1 and 2 are bright
/// cyan and underlined, deeper levels bright blue; levels 1 to 3 are bold.
pub open spec fn heading_style_of(level: u8) -> Style {
    Style {
        fg: if level <= 2 {
            Color::BrightCyan
        } else {
            Color::BrightBlue
        },
        bg: Color::Reset,
        bold: level <= 3,
        italic: false,
        underline: level <= 2,
        strikethrough: false,
    }
}

/// Style of code blocks and of inline code.
pub open spec fn code_style_of() -> Style {
    Style { fg: Color::BrightGreen, ..plain_style() }
}

/// Style of link text.
pub open spec fn link_style_of() -> Style {
    Style { fg: Color::BrightBlue, underline: true, ..plain_style() }
}

pub open spec fn bold_style_of() -> Style {
    Style { fg: Color::Unset, bold: true, ..plain_style() }
}

pub open spec fn italic_style_of() -> Style {
    Style { fg: Color::Unset, italic: true, ..plain_style() }
}

pub open spec fn strike_style_of() -> Style {
    Style { fg: Color::Unset, strikethrough: true, ..plain_style() }
}

pub open spec fn image_style_of() -> Style {
    Style { fg: Color::BrightMagenta, italic: true, underline: true, ..plain_style() }
}

pub open spec fn html_style_of() -> Style {
    Style { fg: Color::BrightBlack, ..plain_style() }
}

/// Style of horizontal rules.
pub open spec fn rule_style_of() -> Style {
    Style { fg: Color::BrightBlack, ..plain_style() }
}

/// The style of text inside the spans `para` (outermost first) within a
/// heading of style `head`: each span overrides the color unless its color
/// is `Unset`, and adds its attributes.
pub open spec fn inline_style(para: Seq<Style>, head: Option<Style>) -> Style
    decreases para.len(),
{
    if para.len() == 0 {
        match head {
            Some(h) => h,
            None => plain_style(),
        }
    } else {
        let s = inline_style(para.drop_last(), head);
        let st = para.last();
        Style {
            fg: if st.fg == Color::Unset {
                s.fg
            } else {
                st.fg
            },
            bg: s.bg,
            bold: s.bold || st.bold,
            italic: s.italic || st.italic,
            underline: s.underline || st.underline,
            strikethrough: s.strikethrough || st.strikethrough,
        }
    }
}

/// The alignment of a column, from its code.
pub open spec fn align_of_code(code: u8) -> Align {
    if code == 1 {
        Align::Left
    } else if code == 2 {
        Align::Center
    } else if code == 3 {
        Align::Right
    } else {
        Align::Unspecified
    }
}

/// `s` without its trailing occurrences of `c`.
pub open spec fn trim_end(s: Seq<char>, c: char) -> Seq<char>
    decreases s.len(),
{
    if s.len() > 0 && s.last() == c {
        trim_end(s.drop_last(), c)
    } else {
        s
    }
}

/// The pieces of `s` between occurrences of `c` (one piece when there is
/// none).
pub open spec fn split(s: Seq<char>, c: char) -> Seq<Seq<char>>
    decreases s.len(),
{
    if s.len() == 0 {
        seq![Seq::empty()]
    } else {
        let p = split(s.drop_last(), c);
        if s.last() == c {
            p.push(Seq::empty())
        } else {
            p.update(p.len() - 1, p.last().push(s.last()))
        }
    }
}

/// The pieces of a code line shown on successive display lines: each
/// character joins the current piece unless the piece is non-empty and
/// would then be wider than `width` (an empty line stays one empty piece).
pub open spec fn chunks(t: Seq<char>, width: nat) -> Seq<Seq<char>>
    decreases t.len(),
{
    if t.len() == 0 {
        seq![Seq::empty()]
    } else {
        let c = chunks(t.drop_last(), width);
        let cur = c.last();
        if cur.len() > 0 && clamp(text_width(cur) + char_width(t.last())) > width {
            c.push(seq![t.last()])
        } else {
            c.update(c.len() - 1, cur.push(t.last()))
        }
    }
}

/// A display line holding `t` in the code style.
pub open spec fn code_line(t: Seq<char>) -> Seq<Run> {
    seq![(t, code_style_of())]
}

/// The display lines of code lines `ps`: each without trailing spaces, cut
/// into pieces that fit `width`.
pub open spec fn code_body(ps: Seq<Seq<char>>, width: nat) -> Seq<Seq<Run>>
    decreases ps.len(),
{
    if ps.len() == 0 {
        Seq::empty()
    } else {
        code_body(ps.drop_last(), width) + chunks(trim_end(ps.last(), ' '), width).map_values(
            |c: Seq<char>| code_line(c),
        )
    }
}

/// The lines of a code block: its text without trailing newlines, split at
/// newlines, each line without trailing spaces and cut to the width, in the
/// code style; then an empty line.
pub open spec fn code_block_lines(buf: Seq<char>, width: nat) -> Seq<Seq<Run>> {
    code_body(split(trim_end(buf, '\n'), '\n'), width).push(Seq::empty())
}

/// A horizontal rule for a `width`-column display, then an empty line.
pub open spec fn rule_lines(width: nat) -> Seq<Seq<Run>> {
    let n = if width > 2 {
        (width - 2) as nat
    } else {
        0
    };
    let n = if n > 1 {
        n
    } else {
        1
    };
    seq![seq![(seq![' ', ' '] + rep('\u{2500}', n), rule_style_of())], Seq::empty()]
}

/// The layout state between two events.
pub struct RenderView {
    /// Finished display lines.
    pub out: Seq<Seq<Run>>,
    /// Inline content waiting to be wrapped.
    pub block: Seq<Run>,
    /// Marker of the current list item, until its first line is laid out.
    pub marker: Option<Seq<char>>,
    /// Indent of continuation lines.
    pub indent: nat,
    /// Styles of the open inline spans, outermost first.
    pub para: Seq<Style>,
    /// For each open list, whether it is ordered.
    pub list_kind: Seq<bool>,
    /// For each open list, the number of its next item.
    pub list_counter: Seq<u32>,
    /// Style of the open heading.
    pub head: Option<Style>,
    pub in_code: bool,
    pub code_buf: Seq<char>,
    pub in_table: bool,
    pub aligns: Seq<Align>,
    pub rows: Seq<RowV>,
    pub cur_row: RowV,
}

/// The state before the first event.
pub open spec fn render_start() -> RenderView {
    RenderView {
        out: Seq::empty(),
        block: Seq::empty(),
        marker: None,
        indent: 0,
        para: Seq::empty(),
        list_kind: Seq::empty(),
        list_counter: Seq::empty(),
        head: None,
        in_code: false,
        code_buf: Seq::empty(),
        in_table: false,
        aligns: Seq::empty(),
        rows: Seq::empty(),
        cur_row: Seq::empty(),
    }
}

/// Lays out the pending inline content.
pub open spec fn flush(s: RenderView, width: nat) -> RenderView {
    RenderView {
        out: s.out + flush_lines(s.block, width, s.marker, s.indent),
        block: Seq::empty(),
        marker: flush_marker(s.block, s.marker),
        ..s
    }
}

/// Appends the display lines `ls`.
pub open spec fn emit(s: RenderView, ls: Seq<Seq<Run>>) -> RenderView {
    RenderView { out: s.out + ls, ..s }
}

/// The marker of a list item: its number and a period for an ordered list,
/// a bullet otherwise.
pub open spec fn item_marker(ordered: bool, n: u32) -> Seq<char> {
    if ordered {
        dec_digits(n as nat) + seq!['.', ' ']
    } else {
        seq!['\u{2022}', ' ']
    }
}

/// The number after `n`, wrapping around.
pub open spec fn next_number(n: u32) -> u32 {
    if n == u32::MAX {
        0
    } else {
        (n + 1) as u32
    }
}

/// Indent of the lines of an item in a list nested `depth` deep: two
/// columns per enclosing list, and two for the item's marker.
pub open spec fn item_indent(depth: nat) -> nat {
    let d = if depth > 0 {
        (depth - 1) as nat
    } else {
        0
    };
    clamp(clamp(2 * d) + 2)
}

pub open spec fn on_item(s: RenderView) -> RenderView {
    let ordered = s.list_kind.len() > 0 && s.list_kind.last();
    let n: u32 = if s.list_counter.len() > 0 {
        s.list_counter.last()
    } else {
        1
    };
    let counter = if ordered && s.list_counter.len() > 0 {
        s.list_counter.update(s.list_counter.len() - 1, next_number(n))
    } else {
        s.list_counter
    };
    RenderView {
        marker: Some(item_marker(ordered, n)),
        list_counter: counter,
        indent: item_indent(s.list_kind.len()),
        ..s
    }
}

pub open spec fn on_start(s: RenderView, tag: StartTag, width: nat) -> RenderView {
    match tag {
        StartTag::Heading(level) => RenderView {
            head: Some(heading_style_of(level)),
            ..flush(s, width)
        },
        StartTag::CodeBlock => RenderView {
            in_code: true,
            code_buf: Seq::empty(),
            ..flush(s, width)
        },
        StartTag::List(start) => {
            let f = flush(s, width);
            RenderView {
                list_kind: f.list_kind.push(start is Some),
                list_counter: f.list_counter.push(1),
                ..f
            }
        },
        StartTag::Item => on_item(s),
        StartTag::Table(codes) => RenderView {
            in_table: true,
            aligns: codes@.map_values(|c: u8| align_of_code(c)),
            rows: Seq::empty(),
            ..flush(s, width)
        },
        StartTag::TableRow => RenderView { cur_row: Seq::empty(), ..s },
        StartTag::TableCell => RenderView { cur_row: s.cur_row.push(Seq::empty()), ..s },
        StartTag::Emphasis => RenderView { para: s.para.push(italic_style_of()), ..s },
        StartTag::Strong => RenderView { para: s.para.push(bold_style_of()), ..s },
        StartTag::Strikethrough => RenderView { para: s.para.push(strike_style_of()), ..s },
        StartTag::Link => RenderView { para: s.para.push(link_style_of()), ..s },
        StartTag::Image => RenderView { para: s.para.push(image_style_of()), ..s },
        _ => s,
    }
}

/// Removes the last element of a sequence, if any.
pub open spec fn pop<A>(s: Seq<A>) -> Seq<A> {
    if s.len() > 0 {
        s.drop_last()
    } else {
        s
    }
}

pub open spec fn on_end(s: RenderView, tag: EndTag, width: nat) -> RenderView {
    match tag {
        EndTag::Heading => emit(RenderView { head: None, ..flush(s, width) }, seq![Seq::empty()]),
        EndTag::CodeBlock => RenderView {
            in_code: false,
            code_buf: Seq::empty(),
            ..emit(s, code_block_lines(s.code_buf, width))
        },
        EndTag::List => {
            let f = flush(s, width);
            let kinds = pop(f.list_kind);
            emit(
                RenderView {
                    list_kind: kinds,
                    list_counter: pop(f.list_counter),
                    indent: clamp(2 * kinds.len()),
                    ..f
                },
                seq![Seq::empty()],
            )
        },
        EndTag::Item => flush(s, width),
        EndTag::Paragraph => emit(flush(s, width), seq![Seq::empty()]),
        EndTag::Table => {
            let rows = pruned(s.rows);
            emit(
                RenderView { in_table: false, rows, ..s },
                table_lines(rows, s.aligns, width).push(Seq::empty()),
            )
        },
        EndTag::TableHead | EndTag::TableRow => if s.cur_row.len() > 0 {
            RenderView { rows: s.rows.push(s.cur_row), cur_row: Seq::empty(), ..s }
        } else {
            s
        },
        EndTag::Emphasis | EndTag::Strong | EndTag::Strikethrough | EndTag::Link | EndTag::Image =>
            RenderView { para: pop(s.para), ..s },
        _ => s,
    }
}

/// Text in style `st`: collected into a code block, a table cell (when a
/// cell is open) or the pending inline content.
pub open spec fn on_text(s: RenderView, text: Seq<char>, st: Style) -> RenderView {
    if s.in_code {
        RenderView { code_buf: s.code_buf + text, ..s }
    } else if s.in_table {
        if s.cur_row.len() > 0 {
            RenderView {
                cur_row: s.cur_row.update(
                    s.cur_row.len() - 1,
                    s.cur_row.last().push((text, st)),
                ),
                ..s
            }
        } else {
            s
        }
    } else {
        RenderView { block: block_push(s.block, text, st), ..s }
    }
}

/// Appends inline content outside tables and code blocks.
pub open spec fn push_inline(s: RenderView, text: Seq<char>, st: Style) -> RenderView {
    RenderView { block: block_push(s.block, text, st), ..s }
}

/// How one event changes the layout state.
pub open spec fn render_step(s: RenderView, e: MdEvent, width: nat) -> RenderView {
    match e {
        MdEvent::Start(tag) => on_start(s, tag, width),
        MdEvent::End(tag) => on_end(s, tag, width),
        MdEvent::Code(t) => on_text(s, t@, code_style_of()),
        MdEvent::Text(t) => on_text(s, t@, inline_style(s.para, s.head)),
        MdEvent::SoftBreak => if !s.in_table && !s.in_code {
            push_inline(s, seq![' '], plain_style())
        } else {
            s
        },
        MdEvent::HardBreak => if !s.in_table && !s.in_code {
            flush(s, width)
        } else {
            s
        },
        MdEvent::Rule => emit(flush(s, width), rule_lines(width)),
        MdEvent::TaskListMarker(checked) => push_inline(
            s,
            if checked {
                seq!['[', 'x', ']', ' ']
            } else {
                seq!['[', ' ', ']', ' ']
            },
            plain_style(),
        ),
        MdEvent::InlineMath(t) => math(s, t@),
        MdEvent::DisplayMath(t) => math(s, t@),
        MdEvent::Html(t) => push_inline(s, t@, html_style_of()),
        MdEvent::InlineHtml(t) => push_inline(s, t@, html_style_of()),
        MdEvent::FootnoteReference(_) => s,
    }
}

/// Math is shown between dollar signs in the code style.
pub open spec fn math(s: RenderView, t: Seq<char>) -> RenderView {
    push_inline(
        push_inline(push_inline(s, seq!['$'], code_style_of()), t, code_style_of()),
        seq!['$'],
        code_style_of(),
    )
}

/// The layout state after the events `es`.
pub open spec fn render_fold(es: Seq<MdEvent>, width: nat) -> RenderView
    decreases es.len(),
{
    if es.len() == 0 {
        render_start()
    } else {
        render_step(render_fold(es.drop_last(), width), es.last(), width)
    }
}

/// The layout state after the events `es`, starting from `s`.
pub open spec fn render_steps(s: RenderView, es: Seq<MdEvent>, width: nat) -> RenderView
    decreases es.len(),
{
    if es.len() == 0 {
        s
    } else {
        render_step(render_steps(s, es.drop_last(), width), es.last(), width)
    }
}

/// How one event changes the item counters of the open lists: only the
/// counter of the innermost open list can change; closing a list removes
/// exactly its counter and no other; opening a list gives it the counter 1
/// and keeps the others; an item of an ordered list is numbered by its
/// list's counter, which moves on to the next number.
pub proof fn law_list_counters(s: RenderView, e: MdEvent, width: nat)
    ensures
        ({
            let r = render_step(s, e, width);
            &&& forall|i: int|
                0 <= i < s.list_counter.len() - 1 && i < r.list_counter.len() ==> r.list_counter[i]
                    == s.list_counter[i]
            &&& r.list_counter.len() + 1 >= s.list_counter.len()
            &&& (e == MdEvent::End(EndTag::List) && s.list_counter.len() > 0) ==> r.list_counter.len()
                == s.list_counter.len() - 1
            &&& (e matches MdEvent::Start(StartTag::List(_))) ==> r.list_counter == s.list_counter.push(1)
            &&& (e == MdEvent::Start(StartTag::Item) && s.list_kind.len() > 0 && s.list_kind.last()
                && s.list_counter.len() > 0) ==> {
                let n = s.list_counter.last();
                &&& r.marker == Some(dec_digits(n as nat) + seq!['.', ' '])
                &&& r.list_counter.len() == s.list_counter.len()
                &&& r.list_counter.last() == (if n == u32::MAX { 0 } else { n + 1 })
            }
        }),
{
}

/// While a list nested inside the list at depth `i` stays open, nothing
/// changes the item counter of the list at depth `i` (nor of any list
/// around it): after the nested list closes, the enclosing list goes on
/// numbering where it left off.
pub proof fn law_nested_list_keeps_counter(s: RenderView, es: Seq<MdEvent>, width: nat, i: int)
    requires
        0 <= i < s.list_counter.len(),
        forall|j: int|
            0 <= j < es.len() ==> #[trigger] render_steps(s, es.take(j), width).list_counter.len() > i
                + 1,
    ensures
        render_steps(s, es, width).list_counter.len() > i,
        render_steps(s, es, width).list_counter[i] == s.list_counter[i],
    decreases es.len(),
{
    if es.len() > 0 {
        let d = es.drop_last();
        assert forall|j: int| 0 <= j < d.len() implies #[trigger] render_steps(s, d.take(j), width).list_counter.len()
            > i + 1 by {
            assert(d.take(j) =~= es.take(j));
            assert(render_steps(s, es.take(j), width).list_counter.len() > i + 1);
        }
        law_nested_list_keeps_counter(s, d, width, i);
        assert(es.take(d.len() as int) =~= d);
        assert(render_steps(s, es.take(d.len() as int), width).list_counter.len() > i + 1);
        law_list_counters(render_steps(s, d, width), es.last(), width);
    }
}

/// The display lines of a document given as events: the lines laid out
/// while reading the events, then the remaining inline content.
pub open spec fn render_lines(es: Seq<MdEvent>, width: nat) -> Seq<Seq<Run>> {
    flush(render_fold(es, width), width).out
}

fn heading_style(level: u8) -> (s: Style)
    ensures
        s == heading_style_of(level),
{
    let fg = if level <= 2 {
        Color::BrightCyan
    } else {
        Color::BrightBlue
    };
    Style {
        fg,
        bg: Color::Reset,
        bold: level <= 3,
        italic: false,
        underline: level <= 2,
        strikethrough: false,
    }
}

fn code_style() -> (s: Style)
    ensures
        s == code_style_of(),
{
    Style {
        fg: Color::BrightGreen,
        bg: Color::Reset,
        bold: false,
        italic: false,
        underline: false,
        strikethrough: false,
    }
}

fn inline_code_style() -> (s: Style)
    ensures
        s == code_style_of(),
{
    Style {
        fg: Color::BrightGreen,
        bg: Color::Reset,
        bold: false,
        italic: false,
        underline: false,
        strikethrough: false,
    }
}

fn link_style() -> (s: Style)
    ensures
        s == link_style_of(),
{
    Style {
        fg: Color::BrightBlue,
        bg: Color::Reset,
        bold: false,
        italic: false,
        underline: true,
        strikethrough: false,
    }
}

fn plain() -> (s: Style)
    ensures
        s == plain_style(),
{
    Style::default()
}

fn st_bold() -> (s: Style)
    ensures
        s == bold_style_of(),
{
    Style {
        fg: Color::Unset,
        bg: Color::Reset,
        bold: true,
        italic: false,
        underline: false,
        strikethrough: false,
    }
}

fn st_italic() -> (s: Style)
    ensures
        s == italic_style_of(),
{
    Style {
        fg: Color::Unset,
        bg: Color::Reset,
        bold: false,
        italic: true,
        underline: false,
        strikethrough: false,
    }
}

fn st_strike() -> (s: Style)
    ensures
        s == strike_style_of(),
{
    Style {
        fg: Color::Unset,
        bg: Color::Reset,
        bold: false,
        italic: false,
        underline: false,
        strikethrough: true,
    }
}

fn st_image() -> (s: Style)
    ensures
        s == image_style_of(),
{
    Style {
        fg: Color::BrightMagenta,
        bg: Color::Reset,
        bold: false,
        italic: true,
        underline: true,
        strikethrough: false,
    }
}

fn st_html() -> (s: Style)
    ensures
        s == html_style_of(),
{
    Style {
        fg: Color::BrightBlack,
        bg: Color::Reset,
        bold: false,
        italic: false,
        underline: false,
        strikethrough: false,
    }
}

pub fn current_inline(para_styles: &Vec<Style>, head_style: Option<Style>) -> (s: Style)
    ensures
        s == inline_style(para_styles@, head_style),
{
    let mut s = match head_style {
        Some(h) => h,
        None => Style::default(),
    };
    let mut i: usize = 0;
    assert(para_styles@.take(0) =~= Seq::<Style>::empty());
    while i < para_styles.len()
        invariant
            i <= para_styles.len(),
            s == inline_style(para_styles@.take(i as int), head_style),
        decreases para_styles.len() - i,
    {
        proof {
            assert(para_styles@.take(i + 1).drop_last() =~= para_styles@.take(i as int));
        }
        let st = para_styles[i];
        match st.fg {
            Color::Unset => {},
            c => {
                s.fg = c;
            },
        }
        s.bold = s.bold || st.bold;
        s.italic = s.italic || st.italic;
        s.underline = s.underline || st.underline;
        s.strikethrough = s.strikethrough || st.strikethrough;
        i = i + 1;
    }
    assert(para_styles@.take(i as int) =~= para_styles@);
    s
}

fn align_from_code(code: u8) -> (a: Align)
    ensures
        a == align_of_code(code),
{
    if code == 1 {
        Align::Left
    } else if code == 2 {
        Align::Center
    } else if code == 3 {
        Align::Right
    } else {
        Align::Unspecified
    }
}

fn trim_end_chars(s: &Vec<char>, c: char) -> (n: usize)
    ensures
        n <= s@.len(),
        s@.take(n as int) == trim_end(s@, c),
{
    let mut n = s.len();
    assert(s@.take(n as int) =~= s@);
    while n > 0 && s[n - 1] == c
        invariant
            n <= s@.len(),
            trim_end(s@.take(n as int), c) == trim_end(s@, c),
        decreases n,
    {
        assert(s@.take(n as int).drop_last() =~= s@.take(n - 1));
        n = n - 1;
    }
    n
}

fn string_of(v: &Vec<char>, lo: usize, hi: usize) -> (s: String)
    requires
        lo <= hi <= v@.len(),
    ensures
        s@ == v@.subrange(lo as int, hi as int),
{
    let mut s = String::new();
    let mut i = lo;
    while i < hi
        invariant
            lo <= i <= hi,
            hi <= v@.len(),
            s@ == v@.subrange(lo as int, i as int),
        decreases hi - i,
    {
        push_char(&mut s, v[i]);
        i = i + 1;
        assert(s@ =~= v@.subrange(lo as int, i as int));
    }
    s
}

proof fn lemma_split_push(s: Seq<char>, c: char, x: char)
    ensures
        split(s.push(x), c) == (if x == c {
            split(s, c).push(Seq::empty())
        } else {
            let p = split(s, c);
            p.update(p.len() - 1, p.last().push(x))
        }),
{
    assert(s.push(x).drop_last() =~= s);
}

proof fn lemma_split_nonempty(s: Seq<char>, c: char)
    ensures
        split(s, c).len() >= 1,
    decreases s.len(),
{
    if s.len() > 0 {
        lemma_split_nonempty(s.drop_last(), c);
    }
}

/// Appends an empty line.
fn push_empty_line(out: &mut Vec<Line>)
    ensures
        lines_view(final(out)@) == lines_view(old(out)@).push(Seq::empty()),
{
    let el = Line { runs: Vec::new() };
    assert(el@ =~= Seq::<Run>::empty());
    out.push(el);
    assert(lines_view(out@) =~= lines_view(old(out)@).push(Seq::empty()));
}

spec fn pieces_view(ps: Seq<Vec<char>>) -> Seq<Seq<char>> {
    ps.map_values(|v: Vec<char>| v@)
}

fn code_lines(code_buf: &String, width: usize, out: &mut Vec<Line>)
    ensures
        lines_view(final(out)@) == lines_view(old(out)@) + code_block_lines(code_buf@, width as nat),
{
    let cs = chars_of(code_buf.as_str());
    let end = trim_end_chars(&cs, '\n');
    let ghost t = cs@.take(end as int);
    let mut pieces: Vec<Vec<char>> = Vec::new();
    pieces.push(Vec::new());
    let mut i: usize = 0;
    assert(pieces_view(pieces@) =~= split(t.take(0), '\n'));
    while i < end
        invariant
            end <= cs@.len(),
            t == cs@.take(end as int),
            i <= end,
            pieces.len() >= 1,
            pieces_view(pieces@) == split(t.take(i as int), '\n'),
        decreases end - i,
    {
        proof {
            assert(t.take(i + 1) =~= t.take(i as int).push(cs@[i as int]));
            lemma_split_push(t.take(i as int), '\n', cs@[i as int]);
        }
        let ghost before = pieces@;
        if cs[i] == '\n' {
            pieces.push(Vec::new());
            assert(pieces_view(pieces@) =~= pieces_view(before).push(Seq::empty()));
        } else {
            let mut last = pieces.pop().unwrap();
            last.push(cs[i]);
            pieces.push(last);
            assert(pieces_view(pieces@) =~= pieces_view(before).update(
                pieces_view(before).len() - 1,
                pieces_view(before).last().push(cs@[i as int]),
            ));
        }
        i = i + 1;
    }
    assert(t.take(i as int) =~= t);
    let ghost ps = split(t, '\n');
    let ghost out0 = lines_view(out@);
    let mut k: usize = 0;
    assert(ps.take(0) =~= Seq::<Seq<char>>::empty());
    while k < pieces.len()
        invariant
            pieces_view(pieces@) == ps,
            k <= pieces.len(),
            lines_view(out@) == out0 + code_body(ps.take(k as int), width as nat),
        decreases pieces.len() - k,
    {
        let n = trim_end_chars(&pieces[k], ' ');
        assert(pieces@[k as int]@ == ps[k as int]);
        let ghost o = lines_view(out@);
        push_chunks(out, &pieces[k], n, width);
        assert(ps.take(k + 1).drop_last() =~= ps.take(k as int));
        assert(ps.take(k + 1).last() == ps[k as int]);
        assert(lines_view(out@) =~= out0 + code_body(ps.take(k + 1), width as nat));
        k = k + 1;
    }
    assert(ps.take(k as int) =~= ps);
    push_empty_line(out);
    assert(lines_view(out@) =~= out0 + code_block_lines(code_buf@, width as nat));
}

/// Appends the first `n` characters of `t` as code lines cut to `width`.
fn push_chunks(out: &mut Vec<Line>, t: &Vec<char>, n: usize, width: usize)
    requires
        n <= t@.len(),
    ensures
        lines_view(final(out)@) == lines_view(old(out)@) + chunks(t@.take(n as int), width as nat).map_values(
            |c: Seq<char>| code_line(c),
        ),
{
    let ghost out0 = lines_view(out@);
    let mut cur = String::new();
    let mut cur_w: usize = 0;
    let mut i: usize = 0;
    assert(t@.take(0) =~= Seq::<char>::empty());
    assert(Seq::<char>::empty() =~= chunks(t@.take(0), width as nat).last());
    while i < n
        invariant
            n <= t@.len(),
            i <= n,
            chunks(t@.take(i as int), width as nat).len() >= 1,
            cur@ == chunks(t@.take(i as int), width as nat).last(),
            cur_w == clamp(text_width(cur@)),
            lines_view(out@) == out0 + chunks(t@.take(i as int), width as nat).drop_last().map_values(
                |c: Seq<char>| code_line(c),
            ),
        decreases n - i,
    {
        let ghost c0 = chunks(t@.take(i as int), width as nat);
        let ch = t[i];
        let cw = char_display_w(ch);
        assert(t@.take(i + 1).drop_last() =~= t@.take(i as int));
        assert(t@.take(i + 1).last() == ch);
        proof {
            lemma_clamp_add(text_width(cur@), cw as nat);
            lemma_char_width_single(ch);
            lemma_text_width_concat(cur@, seq![ch]);
        }
        if !cur.as_str().is_empty() && cur_w.saturating_add(cw) > width {
            let mut piece = String::new();
            std::mem::swap(&mut piece, &mut cur);
            let mut runs: Vec<Styled> = Vec::new();
            runs.push(Styled { text: piece, style: code_style() });
            let line = Line { runs };
            assert(line@ =~= code_line(c0.last()));
            let ghost o = out@;
            out.push(line);
            assert(lines_view(out@) =~= lines_view(o).push(line@));
            push_char(&mut cur, ch);
            cur_w = cw;
            assert(cur@ =~= seq![ch]);
            let ghost c1 = chunks(t@.take(i + 1), width as nat);
            assert(c1 == c0.push(seq![ch]));
            assert(c1.drop_last() =~= c0);
            assert(c0.drop_last().map_values(|c: Seq<char>| code_line(c)).push(code_line(c0.last()))
                =~= c0.map_values(|c: Seq<char>| code_line(c)));
        } else {
            push_char(&mut cur, ch);
            cur_w = cur_w.saturating_add(cw);
            let ghost c1 = chunks(t@.take(i + 1), width as nat);
            assert(c1 == c0.update(c0.len() - 1, c0.last().push(ch)));
            assert(c1.drop_last() =~= c0.drop_last());
            assert(cur@ =~= c0.last() + seq![ch]);
            assert(c0.last().push(ch) =~= c0.last() + seq![ch]);
        }
        i = i + 1;
    }
    let ghost cf = chunks(t@.take(i as int), width as nat);
    let mut runs: Vec<Styled> = Vec::new();
    runs.push(Styled { text: cur, style: code_style() });
    let line = Line { runs };
    assert(line@ =~= code_line(cf.last()));
    let ghost o = out@;
    out.push(line);
    assert(lines_view(out@) =~= lines_view(o).push(line@));
    assert(cf.drop_last().map_values(|c: Seq<char>| code_line(c)).push(code_line(cf.last()))
        =~= cf.map_values(|c: Seq<char>| code_line(c)));
}

fn rule_line(width: usize) -> (l: Line)
    ensures
        seq![l@, Seq::<Run>::empty()] == rule_lines(width as nat),
{
    let n0 = width.saturating_sub(2);
    let n = if n0 > 1 {
        n0
    } else {
        1
    };
    let mut t = String::new();
    push_char(&mut t, ' ');
    push_char(&mut t, ' ');
    let mut k: usize = 0;
    while k < n
        invariant
            k <= n,
            t@ == seq![' ', ' '] + rep('\u{2500}', k as nat),
        decreases n - k,
    {
        push_char(&mut t, '\u{2500}');
        k = k + 1;
        assert(t@ =~= seq![' ', ' '] + rep('\u{2500}', k as nat));
    }
    let style = Style { fg: Color::BrightBlack, bg: Color::Reset, ..Style::default() };
    let mut runs: Vec<Styled> = Vec::new();
    runs.push(Styled { text: t, style });
    let l = Line { runs };
    assert(l@ =~= seq![(seq![' ', ' '] + rep('\u{2500}', n as nat), rule_style_of())]);
    l
}

/// The rendered document.
#[derive(Debug)]
pub struct Document {
    pub lines: Vec<Line>,
}

impl View for Document {
    type V = Seq<Seq<Run>>;

    open spec fn view(&self) -> Seq<Seq<Run>> {
        lines_view(self.lines@)
    }
}

/// The executable layout state.
struct Renderer {
    out: Vec<Line>,
    block: Block,
    marker: Option<String>,
    indent: usize,
    para: Vec<Style>,
    list_kind: Vec<bool>,
    list_counter: Vec<u32>,
    head: Option<Style>,
    in_code: bool,
    code_buf: String,
    in_table: bool,
    aligns: Vec<Align>,
    rows: Vec<Vec<Vec<Styled>>>,
    cur_row: Vec<Vec<Styled>>,
}

impl Renderer {
    spec fn view(&self) -> RenderView {
        RenderView {
            out: lines_view(self.out@),
            block: self.block@,
            marker: opt_view(self.marker),
            indent: self.indent as nat,
            para: self.para@,
            list_kind: self.list_kind@,
            list_counter: self.list_counter@,
            head: self.head,
            in_code: self.in_code,
            code_buf: self.code_buf@,
            in_table: self.in_table,
            aligns: self.aligns@,
            rows: rows_view(self.rows@),
            cur_row: row_view(self.cur_row@),
        }
    }

    fn new() -> (r: Renderer)
        ensures
            r.view() == render_start(),
    {
        let r = Renderer {
            out: Vec::new(),
            block: Block::new(),
            marker: None,
            indent: 0,
            para: Vec::new(),
            list_kind: Vec::new(),
            list_counter: Vec::new(),
            head: None,
            in_code: false,
            code_buf: String::new(),
            in_table: false,
            aligns: Vec::new(),
            rows: Vec::new(),
            cur_row: Vec::new(),
        };
        assert(r.view().out =~= Seq::<Seq<Run>>::empty());
        assert(r.view().para =~= Seq::<Style>::empty());
        assert(r.view().list_kind =~= Seq::<bool>::empty());
        assert(r.view().list_counter =~= Seq::<u32>::empty());
        assert(r.view().aligns =~= Seq::<Align>::empty());
        assert(r.view().rows =~= Seq::<RowV>::empty());
        assert(r.view().cur_row =~= Seq::<Seq<Run>>::empty());
        r
    }

    fn flush(&mut self, width: usize)
        ensures
            final(self).view() == flush(old(self).view(), width as nat),
    {
        flush_inline(&mut self.out, &mut self.block, width, &mut self.marker, self.indent);
    }

    fn emit_empty(&mut self)
        ensures
            final(self).view() == emit(old(self).view(), seq![Seq::<Run>::empty()]),
    {
        push_empty_line(&mut self.out);
        assert(lines_view(self.out@) =~= lines_view(old(self).out@) + seq![Seq::<Run>::empty()]);
    }

    fn push_inline(&mut self, text: &str, st: Style)
        ensures
            final(self).view() == push_inline(old(self).view(), text@, st),
    {
        self.block.push(text, st);
    }

    fn item(&mut self)
        ensures
            final(self).view() == on_item(old(self).view()),
    {
        let nk = self.list_kind.len();
        let ordered = nk > 0 && self.list_kind[nk - 1];
        let d = nk.saturating_sub(1);
        let twice = if d > usize::MAX / 2 {
            usize::MAX
        } else {
            d * 2
        };
        if ordered {
            let nc = self.list_counter.len();
            let n: u32 = if nc > 0 {
                self.list_counter[nc - 1]
            } else {
                1
            };
            if nc > 0 {
                let next = if n == u32::MAX {
                    0
                } else {
                    n + 1
                };
                self.list_counter.set(nc - 1, next);
            }
            let mut m = decimal(n as u64);
            push_char(&mut m, '.');
            push_char(&mut m, ' ');
            assert(m@ =~= item_marker(true, n));
            self.marker = Some(m);
        } else {
            let mut m = String::new();
            push_char(&mut m, '\u{2022}');
            push_char(&mut m, ' ');
            assert(m@ =~= item_marker(false, 1));
            self.marker = Some(m);
        }
        self.indent = twice.saturating_add(2);
    }

    fn start(&mut self, tag: &StartTag, width: usize)
        ensures
            final(self).view() == on_start(old(self).view(), *tag, width as nat),
    {
        match tag {
            StartTag::Heading(level) => {
                self.flush(width);
                self.head = Some(heading_style(*level));
            },
            StartTag::CodeBlock => {
                self.flush(width);
                self.in_code = true;
                self.code_buf = String::new();
            },
            StartTag::List(start) => {
                self.flush(width);
                self.list_kind.push(start.is_some());
                self.list_counter.push(1);
            },
            StartTag::Item => {
                self.item();
            },
            StartTag::Table(codes) => {
                self.flush(width);
                self.in_table = true;
                let mut aligns: Vec<Align> = Vec::new();
                let mut i: usize = 0;
                while i < codes.len()
                    invariant
                        i <= codes.len(),
                        aligns@ =~= codes@.take(i as int).map_values(|c: u8| align_of_code(c)),
                    decreases codes.len() - i,
                {
                    aligns.push(align_from_code(codes[i]));
                    i = i + 1;
                }
                assert(codes@.take(i as int) =~= codes@);
                self.aligns = aligns;
                self.rows = Vec::new();
                assert(rows_view(self.rows@) =~= Seq::<RowV>::empty());
            },
            StartTag::TableRow => {
                self.cur_row = Vec::new();
                assert(row_view(self.cur_row@) =~= Seq::<Seq<Run>>::empty());
            },
            StartTag::TableCell => {
                let ghost before = self.cur_row@;
                let cell: Vec<Styled> = Vec::new();
                assert(runs_view(cell@) =~= Seq::<Run>::empty());
                self.cur_row.push(cell);
                assert(row_view(self.cur_row@) =~= row_view(before).push(Seq::empty()));
            },
            StartTag::Emphasis => {
                self.para.push(st_italic());
            },
            StartTag::Strong => {
                self.para.push(st_bold());
            },
            StartTag::Strikethrough => {
                self.para.push(st_strike());
            },
            StartTag::Link => {
                self.para.push(link_style());
            },
            StartTag::Image => {
                self.para.push(st_image());
            },
            _ => {},
        }
    }

    fn end(&mut self, tag: EndTag, width: usize)
        ensures
            final(self).view() == on_end(old(self).view(), tag, width as nat),
    {
        match tag {
            EndTag::Heading => {
                self.flush(width);
                self.head = None;
                self.emit_empty();
                assert(self.view() == on_end(old(self).view(), tag, width as nat));
            },
            EndTag::CodeBlock => {
                self.in_code = false;
                code_lines(&self.code_buf, width, &mut self.out);
                self.code_buf = String::new();
                assert(self.view() == on_end(old(self).view(), tag, width as nat));
            },
            EndTag::List => {
                self.flush(width);
                self.list_kind.pop();
                self.list_counter.pop();
                let n = self.list_kind.len();
                self.indent = if n > usize::MAX / 2 {
                    usize::MAX
                } else {
                    n * 2
                };
                self.emit_empty();
                assert(self.view() == on_end(old(self).view(), tag, width as nat));
            },
            EndTag::Item => {
                self.flush(width);
            },
            EndTag::Paragraph => {
                self.flush(width);
                self.emit_empty();
                assert(self.view() == on_end(old(self).view(), tag, width as nat));
            },
            EndTag::Table => {
                self.in_table = false;
                prune_table_rows(&mut self.rows);
                let ghost o = lines_view(self.out@);
                render_table(&self.rows, &self.aligns, width, &mut self.out);
                self.emit_empty();
                assert(lines_view(self.out@) =~= o + table_lines(rows_view(self.rows@), self.aligns@, width as nat).push(Seq::empty()));
                assert(self.view() == on_end(old(self).view(), tag, width as nat));
            },
            EndTag::TableHead | EndTag::TableRow => {
                if self.cur_row.len() > 0 {
                    let mut row: Vec<Vec<Styled>> = Vec::new();
                    std::mem::swap(&mut row, &mut self.cur_row);
                    let ghost before = self.rows@;
                    self.rows.push(row);
                    assert(rows_view(self.rows@) =~= rows_view(before).push(row_view(row@)));
                    assert(row_view(self.cur_row@) =~= Seq::<Seq<Run>>::empty());
                }
            },
            EndTag::Emphasis | EndTag::Strong | EndTag::Strikethrough | EndTag::Link | EndTag::Image => {
                self.para.pop();
            },
            _ => {},
        }
    }

    fn text(&mut self, text: &String, st: Style)
        ensures
            final(self).view() == on_text(old(self).view(), text@, st),
    {
        if self.in_code {
            self.code_buf.append(text.as_str());
        } else if self.in_table {
            let n = self.cur_row.len();
            if n > 0 {
                let ghost before = self.cur_row@;
                let mut cell = self.cur_row.pop().unwrap();
                let ghost c0 = cell@;
                let r = Styled::new(text.as_str(), st);
                cell.push(r);
                assert(runs_view(cell@) =~= runs_view(c0).push((text@, st)));
                self.cur_row.push(cell);
                assert(row_view(self.cur_row@) =~= row_view(before).update(
                    row_view(before).len() - 1,
                    row_view(before).last().push((text@, st)),
                ));
            }
        } else {
            self.block.push(text.as_str(), st);
        }
    }

    fn step(&mut self, e: &MdEvent, width: usize)
        ensures
            final(self).view() == render_step(old(self).view(), *e, width as nat),
    {
        match e {
            MdEvent::Start(tag) => self.start(tag, width),
            MdEvent::End(tag) => self.end(*tag, width),
            MdEvent::Code(t) => self.text(t, inline_code_style()),
            MdEvent::Text(t) => {
                let st = current_inline(&self.para, self.head);
                self.text(t, st);
            },
            MdEvent::SoftBreak => {
                if !self.in_table && !self.in_code {
                    let mut sp = String::new();
                    push_char(&mut sp, ' ');
                    assert(sp@ =~= seq![' ']);
                    self.push_inline(sp.as_str(), plain());
                }
            },
            MdEvent::HardBreak => {
                if !self.in_table && !self.in_code {
                    self.flush(width);
                }
            },
            MdEvent::Rule => {
                self.flush(width);
                let l = rule_line(width);
                let ghost o = self.out@;
                self.out.push(l);
                push_empty_line(&mut self.out);
                assert(lines_view(self.out@) =~= lines_view(o) + rule_lines(width as nat));
            },
            MdEvent::TaskListMarker(checked) => {
                let mut m = String::new();
                push_char(&mut m, '[');
                push_char(&mut m, if *checked { 'x' } else { ' ' });
                push_char(&mut m, ']');
                push_char(&mut m, ' ');
                assert(m@ =~= (if *checked {
                    seq!['[', 'x', ']', ' ']
                } else {
                    seq!['[', ' ', ']', ' ']
                }));
                self.push_inline(m.as_str(), plain());
            },
            MdEvent::InlineMath(t) => self.math(t),
            MdEvent::DisplayMath(t) => self.math(t),
            MdEvent::Html(t) => self.push_inline(t.as_str(), st_html()),
            MdEvent::InlineHtml(t) => self.push_inline(t.as_str(), st_html()),
            MdEvent::FootnoteReference(_) => {},
        }
    }

    fn math(&mut self, t: &String)
        ensures
            final(self).view() == math(old(self).view(), t@),
    {
        let mut d = String::new();
        push_char(&mut d, '$');
        assert(d@ =~= seq!['$']);
        self.push_inline(d.as_str(), inline_code_style());
        self.push_inline(t.as_str(), inline_code_style());
        self.push_inline(d.as_str(), inline_code_style());
    }
}

/// Lays out markdown events into styled display lines wrapped to `width`.
pub fn render_events(events: &Vec<MdEvent>, width: usize) -> (doc: Document)
    ensures
        doc@ == render_lines(events@, width as nat),
{
    let mut r = Renderer::new();
    let mut i: usize = 0;
    while i < events.len()
        invariant
            i <= events.len(),
            r.view() == render_fold(events@.take(i as int), width as nat),
        decreases events.len() - i,
    {
        proof {
            assert(events@.take(i + 1).drop_last() =~= events@.take(i as int));
        }
        r.step(&events[i], width);
        i = i + 1;
    }
    assert(events@.take(i as int) =~= events@);
    r.flush(width);
    Document { lines: r.out }
}

/// Parser options used for documents: tables (bit 1), footnotes (bit 2),
/// strikethrough (bit 3), task lists (bit 4) and heading attributes (bit 6).
pub const MARKDOWN_OPTIONS: u32 = 2 | 4 | 8 | 16 | 64;

/// Parse markdown into styled display lines wrapped to `width`.
pub fn render_markdown(source: &str, width: usize) -> (doc: Document)
    ensures
        doc@ == render_lines(cmark_events(source@, MARKDOWN_OPTIONS), width as nat),
{
    let parsed = ParsedMarkdown::parse(source, MARKDOWN_OPTIONS);
    let events = collect_events(&parsed);
    render_events(&events, width)
}

/// No character of `t` is wider than `width`.
pub open spec fn narrow(t: Seq<char>, width: nat) -> bool {
    forall|i: int| 0 <= i < t.len() ==> char_width(#[trigger] t[i]) <= width
}

/// Cutting a code line loses nothing and changes no order; every piece fits
/// the width, except a single character wider than the width; and when no
/// character is wider than the width, every piece fits.
pub proof fn law_chunks(t: Seq<char>, width: nat)
    requires
        width < usize::MAX,
    ensures
        chunks(t, width).len() >= 1,
        chunks(t, width).flatten() == t,
        forall|k: int|
            0 <= k < chunks(t, width).len() ==> text_width(#[trigger] chunks(t, width)[k]) <= width
                || chunks(t, width)[k].len() == 1,
        narrow(t, width) ==> forall|k: int|
            0 <= k < chunks(t, width).len() ==> text_width(#[trigger] chunks(t, width)[k]) <= width,
    decreases t.len(),
{
    let c = chunks(t, width);
    c.lemma_flatten_and_flatten_alt_are_equivalent();
    if t.len() == 0 {
        assert(c == seq![Seq::<char>::empty()]);
        assert(c.drop_last() =~= Seq::<Seq<char>>::empty());
        assert(c.drop_last().flatten_alt() == Seq::<char>::empty());
        assert(c.last() == Seq::<char>::empty());
        assert(text_width(Seq::<char>::empty()) == 0);
        assert(c.flatten_alt() =~= Seq::<char>::empty());
    } else {
        let p = t.drop_last();
        let ch = t.last();
        law_chunks(p, width);
        let c0 = chunks(p, width);
        c0.lemma_flatten_and_flatten_alt_are_equivalent();
        let cur = c0.last();
        lemma_char_width_single(ch);
        lemma_text_width_concat(cur, seq![ch]);
        assert(cur.push(ch) =~= cur + seq![ch]);
        assert(narrow(t, width) ==> narrow(p, width) && char_width(ch) <= width) by {
            if narrow(t, width) {
                assert(ch == t[t.len() - 1]);
                assert forall|i: int| 0 <= i < p.len() implies char_width(#[trigger] p[i]) <= width by {
                    assert(p[i] == t[i]);
                }
            }
        }
        if cur.len() > 0 && clamp(text_width(cur) + char_width(ch)) > width {
            assert(c == c0.push(seq![ch]));
            assert(c.drop_last() =~= c0);
            assert(c.flatten_alt() =~= c0.flatten_alt() + seq![ch]);
            assert(p + seq![ch] =~= t);
        } else {
            assert(c == c0.update(c0.len() - 1, cur.push(ch)));
            assert(c.drop_last() =~= c0.drop_last());
            assert(c0.flatten_alt() == c0.drop_last().flatten_alt() + cur);
            assert(c.flatten_alt() =~= c0.flatten_alt() + seq![ch]);
            assert(p + seq![ch] =~= t);
            if cur.len() == 0 {
                assert(cur.push(ch) =~= seq![ch]);
            }
            assert forall|k: int| 0 <= k < c.len() - 1 implies c[k] == c0[k] by {}
        }
    }
}

proof fn lemma_trim_end_narrow(t: Seq<char>, c: char, width: nat)
    requires
        narrow(t, width),
    ensures
        narrow(trim_end(t, c), width),
    decreases t.len(),
{
    if t.len() > 0 && t.last() == c {
        assert forall|i: int| 0 <= i < t.drop_last().len() implies char_width(#[trigger] t.drop_last()[i])
            <= width by {
            assert(t.drop_last()[i] == t[i]);
        }
        lemma_trim_end_narrow(t.drop_last(), c, width);
    }
}

proof fn lemma_split_narrow(t: Seq<char>, c: char, width: nat)
    requires
        narrow(t, width),
    ensures
        forall|k: int| 0 <= k < split(t, c).len() ==> narrow(#[trigger] split(t, c)[k], width),
    decreases t.len(),
{
    if t.len() > 0 {
        let p = t.drop_last();
        assert forall|i: int| 0 <= i < p.len() implies char_width(#[trigger] p[i]) <= width by {
            assert(p[i] == t[i]);
        }
        lemma_split_narrow(p, c, width);
        lemma_split_nonempty(p, c);
        let sp = split(p, c);
        let x = t.last();
        assert(x == t[t.len() - 1]);
        if x != c {
            let l = sp.last().push(x);
            assert(narrow(sp[sp.len() - 1], width));
            assert forall|i: int| 0 <= i < l.len() implies char_width(#[trigger] l[i]) <= width by {
                if i < l.len() - 1 {
                    assert(l[i] == sp.last()[i]);
                }
            }
            assert forall|k: int| 0 <= k < split(t, c).len() implies narrow(#[trigger] split(t, c)[k], width) by {
                if k < sp.len() - 1 {
                    assert(split(t, c)[k] == sp[k]);
                }
            }
        } else {
            assert forall|k: int| 0 <= k < split(t, c).len() implies narrow(#[trigger] split(t, c)[k], width) by {
                if k < sp.len() {
                    assert(split(t, c)[k] == sp[k]);
                } else {
                    assert(split(t, c)[k] =~= Seq::<char>::empty());
                }
            }
        }
    }
}

proof fn lemma_code_body_fits(ps: Seq<Seq<char>>, width: nat)
    requires
        width < usize::MAX,
        forall|k: int| 0 <= k < ps.len() ==> narrow(#[trigger] ps[k], width),
    ensures
        forall|k: int|
            0 <= k < code_body(ps, width).len() ==> crate::render::runs_width(#[trigger] code_body(ps, width)[k])
                <= width,
    decreases ps.len(),
{
    if ps.len() > 0 {
        let p = ps.drop_last();
        assert forall|k: int| 0 <= k < p.len() implies narrow(#[trigger] p[k], width) by {
            assert(p[k] == ps[k]);
        }
        lemma_code_body_fits(p, width);
        let t = trim_end(ps.last(), ' ');
        assert(narrow(ps[ps.len() - 1], width));
        lemma_trim_end_narrow(ps.last(), ' ', width);
        law_chunks(t, width);
        let a = code_body(p, width);
        let b = chunks(t, width).map_values(|c: Seq<char>| code_line(c));
        assert forall|k: int| 0 <= k < (a + b).len() implies crate::render::runs_width(#[trigger] (a + b)[k])
            <= width by {
            if k >= a.len() {
                let cpiece = chunks(t, width)[k - a.len()];
                assert((a + b)[k] == code_line(cpiece));
                assert(code_line(cpiece).drop_last() =~= Seq::<Run>::empty());
                assert(crate::render::runs_text(Seq::<Run>::empty()) == Seq::<char>::empty());
                assert(crate::render::runs_text(code_line(cpiece)) =~= cpiece);
            } else {
                assert((a + b)[k] == a[k]);
            }
        }
    }
}

/// Code blocks fit the width: when no character is wider than the width,
/// every display line of a code block is at most `width` columns wide.
pub proof fn law_code_block_fits(buf: Seq<char>, width: nat)
    requires
        width < usize::MAX,
        narrow(buf, width),
    ensures
        forall|k: int|
            0 <= k < code_block_lines(buf, width).len() ==> crate::render::runs_width(
                #[trigger] code_block_lines(buf, width)[k],
            ) <= width,
{
    let t = trim_end(buf, '\n');
    lemma_trim_end_narrow(buf, '\n', width);
    lemma_split_narrow(t, '\n', width);
    let ps = split(t, '\n');
    lemma_code_body_fits(ps, width);
    let body = code_body(ps, width);
    assert(crate::render::runs_width(Seq::<Run>::empty()) == 0) by {
        assert(crate::render::runs_text(Seq::<Run>::empty()) == Seq::<char>::empty());
    }
    assert forall|k: int| 0 <= k < body.push(Seq::<Run>::empty()).len() implies crate::render::runs_width(
        #[trigger] body.push(Seq::<Run>::empty())[k],
    ) <= width by {
        if k < body.len() {
            assert(body.push(Seq::<Run>::empty())[k] == body[k]);
        }
    }
}

/// The style of text inside spans: the background of the heading (or the
/// default); the color of the innermost span that sets one, else the
/// heading's; and each attribute when the heading or any span has it.
pub proof fn law_inline_style(para: Seq<Style>, head: Option<Style>)
    ensures
        ({
            let h = match head {
                Some(h) => h,
                None => plain_style(),
            };
            let r = inline_style(para, head);
            &&& r.bg == h.bg
            &&& r.bold == (h.bold || exists|i: int| 0 <= i < para.len() && (#[trigger] para[i]).bold)
            &&& r.italic == (h.italic || exists|i: int| 0 <= i < para.len() && (#[trigger] para[i]).italic)
            &&& r.underline == (h.underline || exists|i: int|
                0 <= i < para.len() && (#[trigger] para[i]).underline)
            &&& r.strikethrough == (h.strikethrough || exists|i: int|
                0 <= i < para.len() && (#[trigger] para[i]).strikethrough)
            &&& (forall|i: int| 0 <= i < para.len() ==> (#[trigger] para[i]).fg == Color::Unset) ==> r.fg
                == h.fg
            &&& forall|k: int|
                0 <= k < para.len() && (#[trigger] para[k]).fg != Color::Unset && (forall|j: int|
                    k < j < para.len() ==> (#[trigger] para[j]).fg == Color::Unset) ==> r.fg == para[k].fg
        }),
    decreases para.len(),
{
    if para.len() > 0 {
        let p = para.drop_last();
        law_inline_style(p, head);
        let last = para.last();
        assert(last == para[para.len() - 1]);
        assert forall|i: int| 0 <= i < p.len() implies p[i] == para[i] by {}
        assert((exists|i: int| 0 <= i < para.len() && (#[trigger] para[i]).bold) == ((exists|i: int|
            0 <= i < p.len() && (#[trigger] p[i]).bold) || last.bold)) by {
            if exists|i: int| 0 <= i < para.len() && (#[trigger] para[i]).bold {
                let i = choose|i: int| 0 <= i < para.len() && (#[trigger] para[i]).bold;
                if i < p.len() {
                    assert(p[i] == para[i]);
                }
            }
            if exists|i: int| 0 <= i < p.len() && (#[trigger] p[i]).bold {
                let i = choose|i: int| 0 <= i < p.len() && (#[trigger] p[i]).bold;
                assert(para[i] == p[i]);
            }
        }
        assert((exists|i: int| 0 <= i < para.len() && (#[trigger] para[i]).italic) == ((exists|i: int|
            0 <= i < p.len() && (#[trigger] p[i]).italic) || last.italic)) by {
            if exists|i: int| 0 <= i < para.len() && (#[trigger] para[i]).italic {
                let i = choose|i: int| 0 <= i < para.len() && (#[trigger] para[i]).italic;
                if i < p.len() {
                    assert(p[i] == para[i]);
                }
            }
            if exists|i: int| 0 <= i < p.len() && (#[trigger] p[i]).italic {
                let i = choose|i: int| 0 <= i < p.len() && (#[trigger] p[i]).italic;
                assert(para[i] == p[i]);
            }
        }
        assert((exists|i: int| 0 <= i < para.len() && (#[trigger] para[i]).underline) == ((exists|i: int|
            0 <= i < p.len() && (#[trigger] p[i]).underline) || last.underline)) by {
            if exists|i: int| 0 <= i < para.len() && (#[trigger] para[i]).underline {
                let i = choose|i: int| 0 <= i < para.len() && (#[trigger] para[i]).underline;
                if i < p.len() {
                    assert(p[i] == para[i]);
                }
            }
            if exists|i: int| 0 <= i < p.len() && (#[trigger] p[i]).underline {
                let i = choose|i: int| 0 <= i < p.len() && (#[trigger] p[i]).underline;
                assert(para[i] == p[i]);
            }
        }
        assert((exists|i: int| 0 <= i < para.len() && (#[trigger] para[i]).strikethrough) == ((exists|
            i: int,
        | 0 <= i < p.len() && (#[trigger] p[i]).strikethrough) || last.strikethrough)) by {
            if exists|i: int| 0 <= i < para.len() && (#[trigger] para[i]).strikethrough {
                let i = choose|i: int| 0 <= i < para.len() && (#[trigger] para[i]).strikethrough;
                if i < p.len() {
                    assert(p[i] == para[i]);
                }
            }
            if exists|i: int| 0 <= i < p.len() && (#[trigger] p[i]).strikethrough {
                let i = choose|i: int| 0 <= i < p.len() && (#[trigger] p[i]).strikethrough;
                assert(para[i] == p[i]);
            }
        }
        assert forall|k: int|
            0 <= k < para.len() && (#[trigger] para[k]).fg != Color::Unset && (forall|j: int|
                k < j < para.len() ==> (#[trigger] para[j]).fg == Color::Unset) implies inline_style(
            para,
            head,
        ).fg == para[k].fg by {
            if k < para.len() - 1 {
                assert(para[para.len() - 1].fg == Color::Unset);
                assert(p[k] == para[k]);
                assert forall|j: int| k < j < p.len() implies (#[trigger] p[j]).fg == Color::Unset by {
                    assert(p[j] == para[j]);
                }
            }
        }
    }
}

} // verus!
