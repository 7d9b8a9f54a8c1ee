//! Inline content: accumulating styled runs and wrapping them into lines.
use vstd::prelude::*;
use crate::render::{
    char_display_w, char_width, display_width, lemma_runs_width_concat, lines_view, plain_style,
    runs_text, runs_view, runs_width, text_width, Line, Run, Style, Styled,
};
use crate::text::{clamp, lemma_clamp_add, opt_view, push_char, spaces, spaces_string};

verus! {

/// A run holding the single character `c`.
pub open spec fn char_run(c: char, st: Style) -> Run {
    (seq![c], st)
}

/// The characters of `t`, each as a run of its own with style `st`.
pub open spec fn explode(t: Seq<char>, st: Style) -> Seq<Run> {
    t.map_values(|c: char| char_run(c, st))
}

/// The characters of a list of runs, each as a run of its own.
pub open spec fn cells_of(runs: Seq<Run>) -> Seq<Run>
    decreases runs.len(),
{
    if runs.len() == 0 {
        Seq::empty()
    } else {
        cells_of(runs.drop_last()) + explode(runs.last().0, runs.last().1)
    }
}

/// Whether a character separates words.
pub open spec fn is_blank(c: char) -> bool {
    c == ' ' || c == '\t'
}

/// The progress of wrapping: finished lines, the line being filled, and the
/// whitespace seen since its last word.
pub struct WrapView {
    pub lines: Seq<Seq<Run>>,
    pub cur: Seq<Run>,
    pub space: Seq<Run>,
}

/// Wrapping before any character.
pub open spec fn wrap_start() -> WrapView {
    WrapView { lines: Seq::empty(), cur: Seq::empty(), space: Seq::empty() }
}

/// Whether cell `i` begins a word: it is not a blank, and it is the first
/// cell or follows a blank.
pub open spec fn starts_word(cells: Seq<Run>, i: int) -> bool {
    !is_blank(cells[i].0[0]) && (i == 0 || is_blank(cells[i - 1].0[0]))
}

/// Display width of the word characters from cell `i` up to the next blank
/// or the end.
pub open spec fn word_width(cells: Seq<Run>, i: int) -> nat
    decreases cells.len() - i,
{
    if i < 0 || i >= cells.len() || is_blank(cells[i].0[0]) {
        0
    } else {
        char_width(cells[i].0[0]) + word_width(cells, i + 1)
    }
}

/// The width that must fit for cell `i` to join the current line: the
/// whole word where a word begins, the character itself inside a word.
pub open spec fn lookahead(cells: Seq<Run>, i: int) -> nat {
    if starts_word(cells, i) {
        word_width(cells, i)
    } else {
        char_width(cells[i].0[0])
    }
}

/// Consumes one single-character run, `ahead` being its `lookahead`.
/// Whitespace is held back. A word that does not fit after the held
/// whitespace starts a new line (dropping that whitespace); inside a word,
/// a character that does not fit starts a new line, which splits only
/// words wider than the line. Otherwise the whitespace and the character
/// join the current line.
pub open spec fn wrap_step(s: WrapView, cell: Run, width: nat, ahead: nat) -> WrapView {
    let ch = cell.0[0];
    if is_blank(ch) {
        WrapView { lines: s.lines, cur: s.cur, space: s.space.push(cell) }
    } else {
        let cw = char_width(ch);
        let s1 = if clamp(runs_width(s.cur) + runs_width(s.space) + ahead) > width && s.cur.len() > 0 {
            WrapView { lines: s.lines.push(s.cur), cur: Seq::empty(), space: Seq::empty() }
        } else {
            s
        };
        let s2 = if clamp(runs_width(s1.cur) + cw) > width && s1.cur.len() > 0 {
            WrapView { lines: s1.lines.push(s1.cur), cur: Seq::empty(), space: s1.space }
        } else {
            s1
        };
        WrapView { lines: s2.lines, cur: s2.cur + s2.space + seq![cell], space: Seq::empty() }
    }
}

/// Wrapping after consuming the first `k` of `cells`.
pub open spec fn wrap_upto(cells: Seq<Run>, k: int, width: nat) -> WrapView
    decreases k,
{
    if k <= 0 {
        wrap_start()
    } else {
        wrap_step(wrap_upto(cells, k - 1, width), cells[k - 1], width, lookahead(cells, k - 1))
    }
}

/// Wrapping after consuming all of `cells`.
pub open spec fn wrap_fold(cells: Seq<Run>, width: nat) -> WrapView {
    wrap_upto(cells, cells.len() as int, width)
}

/// The lines of a wrapped paragraph: the held whitespace closes the last
/// line, and there is always at least one (possibly empty) line.
pub open spec fn wrap_lines(cells: Seq<Run>, width: nat) -> Seq<Seq<Run>> {
    let s = wrap_fold(cells, width);
    let last = s.cur + s.space;
    let lines = if last.len() > 0 {
        s.lines.push(last)
    } else {
        s.lines
    };
    if lines.len() == 0 {
        seq![Seq::empty()]
    } else {
        lines
    }
}

fn char_styled(c: char, style: Style) -> (r: Styled)
    ensures
        r@ == char_run(c, style),
{
    let mut text = String::new();
    push_char(&mut text, c);
    Styled { text, style }
}

proof fn lemma_runs_view_push(runs: Seq<Styled>, r: Styled)
    ensures
        runs_view(runs.push(r)) == runs_view(runs).push(r@),
{
    assert(runs_view(runs.push(r)) =~= runs_view(runs).push(r@));
}

proof fn lemma_runs_view_concat(a: Seq<Styled>, b: Seq<Styled>)
    ensures
        runs_view(a + b) == runs_view(a) + runs_view(b),
{
    assert(runs_view(a + b) =~= runs_view(a) + runs_view(b));
}

proof fn lemma_lines_view_push(lines: Seq<Line>, l: Line)
    ensures
        lines_view(lines.push(l)) == lines_view(lines).push(l@),
{
    assert(lines_view(lines.push(l)) =~= lines_view(lines).push(l@));
}

pub proof fn lemma_runs_width_push(a: Seq<Run>, r: Run)
    ensures
        runs_width(a.push(r)) == runs_width(a) + text_width(r.0),
{
    lemma_runs_width_concat(a, seq![r]);
    assert(seq![r].drop_last() =~= Seq::<Run>::empty());
    assert(runs_text(Seq::<Run>::empty()) == Seq::<char>::empty());
    assert(seq![r].last() == r);
    assert(runs_text(seq![r]) =~= r.0);
    assert(a + seq![r] =~= a.push(r));
}

pub proof fn lemma_char_width_single(c: char)
    ensures
        text_width(seq![c]) == char_width(c),
{
    assert(seq![c].drop_last() =~= Seq::<char>::empty());
    assert(text_width(Seq::<char>::empty()) == 0);
    assert(seq![c].last() == c);
}

/// The executable state of wrapping.
struct Wrapper {
    lines: Vec<Line>,
    cur: Vec<Styled>,
    cur_w: usize,
    space: Vec<Styled>,
    space_w: usize,
}

impl Wrapper {
    spec fn view(&self) -> WrapView {
        WrapView {
            lines: lines_view(self.lines@),
            cur: runs_view(self.cur@),
            space: runs_view(self.space@),
        }
    }

    spec fn wf(&self) -> bool {
        &&& self.cur_w == clamp(runs_width(runs_view(self.cur@)))
        &&& self.space_w == clamp(runs_width(runs_view(self.space@)))
    }

    fn new() -> (w: Wrapper)
        ensures
            w.wf(),
            w.view() == wrap_start(),
    {
        let w = Wrapper {
            lines: Vec::new(),
            cur: Vec::new(),
            cur_w: 0,
            space: Vec::new(),
            space_w: 0,
        };
        assert(w.view().lines =~= Seq::<Seq<Run>>::empty());
        assert(w.view().cur =~= Seq::<Run>::empty());
        assert(w.view().space =~= Seq::<Run>::empty());
        w
    }

    /// Moves the current line to the finished lines.
    fn break_line(&mut self)
        requires
            old(self).wf(),
        ensures
            final(self).wf(),
            final(self).view() == (WrapView {
                lines: old(self).view().lines.push(old(self).view().cur),
                cur: Seq::empty(),
                space: old(self).view().space,
            }),
    {
        let mut taken: Vec<Styled> = Vec::new();
        std::mem::swap(&mut taken, &mut self.cur);
        proof {
            lemma_lines_view_push(self.lines@, Line { runs: taken });
        }
        self.lines.push(Line { runs: taken });
        self.cur_w = 0;
        assert(self.view().cur =~= Seq::<Run>::empty());
    }

    fn step(&mut self, ch: char, style: Style, width: usize, ahead: usize)
        requires
            old(self).wf(),
        ensures
            final(self).wf(),
            final(self).view() == wrap_step(old(self).view(), char_run(ch, style), width as nat, ahead as nat),
    {
        let ghost s0 = self.view();
        let cw = char_display_w(ch);
        proof {
            lemma_char_width_single(ch);
        }
        if ch == ' ' || ch == '\t' {
            let cell = char_styled(ch, style);
            proof {
                lemma_runs_view_push(self.space@, cell);
                lemma_runs_width_push(runs_view(self.space@), cell@);
                lemma_clamp_add(runs_width(runs_view(self.space@)), cw as nat);
            }
            self.space.push(cell);
            self.space_w = self.space_w.saturating_add(cw);
            return;
        }
        proof {
            lemma_clamp_add(runs_width(runs_view(self.cur@)), runs_width(runs_view(self.space@)));
            lemma_clamp_add(runs_width(runs_view(self.cur@)) + runs_width(runs_view(self.space@)), ahead as nat);
        }
        if self.cur_w.saturating_add(self.space_w).saturating_add(ahead) > width && self.cur.len() > 0 {
            self.break_line();
            self.space.clear();
            self.space_w = 0;
            assert(self.view().space =~= Seq::<Run>::empty());
        }
        let ghost s1 = self.view();
        proof {
            lemma_clamp_add(runs_width(runs_view(self.cur@)), cw as nat);
        }
        if self.cur_w.saturating_add(cw) > width && self.cur.len() > 0 {
            self.break_line();
        }
        let ghost s2 = self.view();
        let mut held: Vec<Styled> = Vec::new();
        std::mem::swap(&mut held, &mut self.space);
        proof {
            lemma_runs_view_concat(self.cur@, held@);
            lemma_runs_width_concat(runs_view(self.cur@), runs_view(held@));
            lemma_clamp_add(runs_width(runs_view(self.cur@)), runs_width(runs_view(held@)));
        }
        self.cur.append(&mut held);
        self.cur_w = self.cur_w.saturating_add(self.space_w);
        self.space_w = 0;
        let cell = char_styled(ch, style);
        proof {
            lemma_runs_view_push(self.cur@, cell);
            lemma_runs_width_push(runs_view(self.cur@), cell@);
            lemma_clamp_add(runs_width(runs_view(self.cur@)), cw as nat);
        }
        self.cur.push(cell);
        self.cur_w = self.cur_w.saturating_add(cw);
        assert(self.view().space =~= Seq::<Run>::empty());
        assert(self.view().cur =~= s2.cur + s2.space + seq![char_run(ch, style)]);
    }
}

impl Wrapper {
    /// Closes wrapping: the held whitespace ends the last line, and an empty
    /// paragraph still yields one empty line.
    fn finish(self, Ghost(cells): Ghost<Seq<Run>>, Ghost(width): Ghost<nat>) -> (lines: Vec<Line>)
        requires
            self.wf(),
            self.view() == wrap_fold(cells, width),
        ensures
            lines_view(lines@) == wrap_lines(cells, width),
    {
        let mut lines = self.lines;
        let mut cur = self.cur;
        let mut space = self.space;
        proof {
            lemma_runs_view_concat(cur@, space@);
        }
        cur.append(&mut space);
        if cur.len() > 0 {
            proof {
                lemma_lines_view_push(lines@, Line { runs: cur });
            }
            lines.push(Line { runs: cur });
        }
        if lines.len() == 0 {
            let empty = Line { runs: Vec::new() };
            proof {
                lemma_lines_view_push(lines@, empty);
                assert(empty@ =~= Seq::<Run>::empty());
            }
            lines.push(empty);
            assert(lines_view(lines@) =~= seq![Seq::<Run>::empty()]);
        }
        lines
    }
}

/// Capping the look-ahead width at `usize::MAX` changes no decision.
proof fn lemma_step_clamp(st: WrapView, cell: Run, width: nat, ahead: nat)
    ensures
        wrap_step(st, cell, width, clamp(ahead)) == wrap_step(st, cell, width, ahead),
{
    lemma_clamp_add(ahead, runs_width(st.cur) + runs_width(st.space));
}

pub proof fn lemma_cells_of_push(runs: Seq<Run>, r: Run)
    ensures
        cells_of(runs.push(r)) == cells_of(runs) + explode(r.0, r.1),
{
    assert(runs.push(r).drop_last() =~= runs);
}

pub proof fn lemma_explode_take(t: Seq<char>, st: Style, j: int)
    requires
        0 <= j < t.len(),
    ensures
        explode(t.take(j + 1), st) == explode(t.take(j), st).push(char_run(t[j], st)),
{
    assert(explode(t.take(j + 1), st) =~= explode(t.take(j), st).push(char_run(t[j], st)));
}

/// Single-character cells as runs.
pub open spec fn cells_view(cells: Seq<(char, Style)>) -> Seq<Run> {
    cells.map_values(|c: (char, Style)| char_run(c.0, c.1))
}

/// The characters of `runs`, each with the style of its run.
fn flatten(runs: &Vec<Styled>) -> (cells: Vec<(char, Style)>)
    ensures
        cells_view(cells@) == cells_of(runs_view(runs@)),
{
    let mut cells: Vec<(char, Style)> = Vec::new();
    let ghost rv = runs_view(runs@);
    let mut i: usize = 0;
    assert(rv.take(0) =~= Seq::<Run>::empty());
    assert(cells_view(cells@) =~= Seq::<Run>::empty());
    while i < runs.len()
        invariant
            rv == runs_view(runs@),
            i <= runs.len(),
            cells_view(cells@) == cells_of(rv.take(i as int)),
        decreases runs.len() - i,
    {
        let cs = crate::text::chars_of(runs[i].text.as_str());
        let style = runs[i].style;
        let ghost base = cells_of(rv.take(i as int));
        let mut j: usize = 0;
        assert(base + explode(cs@.take(0), style) =~= base);
        while j < cs.len()
            invariant
                rv == runs_view(runs@),
                i < runs.len(),
                j <= cs.len(),
                base == cells_of(rv.take(i as int)),
                cells_view(cells@) == base + explode(cs@.take(j as int), style),
            decreases cs.len() - j,
        {
            proof {
                lemma_explode_take(cs@, style, j as int);
            }
            let ghost before = cells@;
            cells.push((cs[j], style));
            assert(cells_view(cells@) =~= cells_view(before).push(char_run(cs@[j as int], style)));
            j = j + 1;
        }
        proof {
            assert(cs@.take(j as int) =~= cs@);
            assert(rv.take(i + 1) =~= rv.take(i as int).push(rv[i as int]));
            lemma_cells_of_push(rv.take(i as int), rv[i as int]);
        }
        i = i + 1;
    }
    assert(rv.take(i as int) =~= rv);
    cells
}

/// Width of the word that begins at cell `i`, capped at `usize::MAX`.
fn word_width_at(cells: &Vec<(char, Style)>, i: usize) -> (w: usize)
    requires
        i < cells.len(),
    ensures
        w == clamp(word_width(cells_view(cells@), i as int)),
{
    let ghost cv = cells_view(cells@);
    let mut j: usize = i;
    let mut acc: usize = 0;
    let ghost mut sum: nat = 0;
    while j < cells.len() && cells[j].0 != ' ' && cells[j].0 != '\t'
        invariant
            cv == cells_view(cells@),
            i <= j <= cells.len(),
            acc == clamp(sum),
            word_width(cv, i as int) == sum + word_width(cv, j as int),
        decreases cells.len() - j,
    {
        let cw = char_display_w(cells[j].0);
        assert(cv[j as int] == char_run(cells@[j as int].0, cells@[j as int].1));
        proof {
            lemma_clamp_add(sum, cw as nat);
        }
        acc = acc.saturating_add(cw);
        proof {
            sum = sum + cw as nat;
        }
        j = j + 1;
    }
    if j < cells.len() {
        assert(cv[j as int] == char_run(cells@[j as int].0, cells@[j as int].1));
    }
    acc
}

/// Wrap styled runs into lines of at most `width`, breaking on whitespace.
/// Words wider than `width` are split.
pub fn wrap_runs(runs: &Vec<Styled>, width: usize) -> (lines: Vec<Line>)
    ensures
        lines_view(lines@) == wrap_lines(cells_of(runs_view(runs@)), width as nat),
{
    let cells = flatten(runs);
    let ghost cv = cells_view(cells@);
    let mut w = Wrapper::new();
    let n = cells.len();
    let mut i: usize = 0;
    while i < n
        invariant
            cv == cells_view(cells@),
            n == cells.len(),
            i <= n,
            w.wf(),
            w.view() == wrap_upto(cv, i as int, width as nat),
        decreases n - i,
    {
        let (ch, style) = cells[i];
        assert(cv[i as int] == char_run(ch, style));
        let blank = ch == ' ' || ch == '\t';
        let prev_blank = if i == 0 {
            true
        } else {
            let p = cells[i - 1].0;
            assert(cv[i - 1] == char_run(p, cells@[i - 1].1));
            p == ' ' || p == '\t'
        };
        let ahead = if !blank && prev_blank {
            word_width_at(&cells, i)
        } else {
            char_display_w(ch)
        };
        proof {
            lemma_step_clamp(w.view(), cv[i as int], width as nat, lookahead(cv, i as int));
        }
        w.step(ch, style, width, ahead);
        i = i + 1;
    }
    w.finish(Ghost(cv), Ghost(width as nat))
}

/// Appends `text` in style `st` to a list of runs, extending the last run
/// when it has the same style; empty text changes nothing.
pub open spec fn block_push(runs: Seq<Run>, text: Seq<char>, st: Style) -> Seq<Run> {
    if text.len() == 0 {
        runs
    } else if runs.len() > 0 && runs.last().1 == st {
        runs.drop_last().push((runs.last().0 + text, st))
    } else {
        runs.push((text, st))
    }
}

/// Accumulates inline (paragraph/heading/list-item) content before wrapping.
pub struct Block {
    pub runs: Vec<Styled>,
}

impl View for Block {
    type V = Seq<Run>;

    open spec fn view(&self) -> Seq<Run> {
        runs_view(self.runs@)
    }
}

impl Block {
    pub fn new() -> (b: Block)
        ensures
            b@ == Seq::<Run>::empty(),
    {
        let b = Block { runs: Vec::new() };
        assert(b@ =~= Seq::<Run>::empty());
        b
    }

    pub fn push(&mut self, text: &str, style: Style)
        ensures
            final(self)@ == block_push(old(self)@, text@, style),
    {
        if text.is_empty() {
            return;
        }
        let n = self.runs.len();
        if n > 0 && self.runs[n - 1].style == style {
            let mut t = self.runs[n - 1].text.clone();
            t.append(text);
            let merged = Styled { text: t, style };
            let ghost before = self.runs@;
            self.runs.set(n - 1, merged);
            assert(runs_view(self.runs@) =~= runs_view(before).drop_last().push(merged@));
            return;
        }
        let r = Styled::new(text, style);
        proof {
            lemma_runs_view_push(self.runs@, r);
        }
        self.runs.push(r);
    }
}

/// Display width taken by a list marker.
pub open spec fn marker_width(marker: Option<Seq<char>>) -> nat {
    match marker {
        Some(m) => clamp(text_width(m)),
        None => 0,
    }
}

/// Width left for text once the indent and the marker are taken.
pub open spec fn text_room(width: nat, marker: Option<Seq<char>>, indent: nat) -> nat {
    let used = clamp(indent + marker_width(marker));
    if width > used {
        (width - used) as nat
    } else {
        0
    }
}

/// Spaces before a list marker: the indent less the two columns that the
/// item's own marker takes, so that nested items sit under their parent's
/// text.
pub open spec fn marker_lead(indent: nat) -> nat {
    if indent >= 2 {
        (indent - 2) as nat
    } else {
        0
    }
}

/// The first wrapped line carries the marker after its lead (one run per
/// character); every later line starts with an indent run of `indent`
/// spaces.
pub open spec fn decorate(lines: Seq<Seq<Run>>, marker: Option<Seq<char>>, indent: nat) -> Seq<
    Seq<Run>,
> {
    Seq::new(
        lines.len(),
        |k: int|
            if k == 0 {
                match marker {
                    Some(m) => explode(spaces(marker_lead(indent)) + m, plain_style()) + lines[0],
                    None => lines[0],
                }
            } else {
                seq![(spaces(indent), plain_style())] + lines[k]
            },
    )
}

proof fn lemma_decorate_at(lines: Seq<Seq<Run>>, marker: Option<Seq<char>>, indent: nat, k: int)
    requires
        0 <= k < lines.len(),
    ensures
        decorate(lines, marker, indent).len() == lines.len(),
        k == 0 && marker is Some ==> decorate(lines, marker, indent)[k] == explode(
            spaces(marker_lead(indent)) + marker->0,
            plain_style(),
        ) + lines[0],
        k == 0 && marker is None ==> decorate(lines, marker, indent)[k] == lines[0],
        k > 0 ==> decorate(lines, marker, indent)[k] == seq![(spaces(indent), plain_style())]
            + lines[k],
{
}

/// The lines produced by flushing the inline content `runs`.
pub open spec fn flush_lines(runs: Seq<Run>, width: nat, marker: Option<Seq<char>>, indent: nat) -> Seq<
    Seq<Run>,
> {
    if runs.len() == 0 {
        Seq::empty()
    } else {
        decorate(wrap_lines(cells_of(runs), text_room(width, marker, indent)), marker, indent)
    }
}

/// The marker left after flushing: consumed when there was content.
pub open spec fn flush_marker(runs: Seq<Run>, marker: Option<Seq<char>>) -> Option<Seq<char>> {
    if runs.len() == 0 {
        marker
    } else {
        None
    }
}

fn marker_runs(m: &String) -> (v: Vec<Styled>)
    ensures
        runs_view(v@) == explode(m@, plain_style()),
{
    let cs = crate::text::chars_of(m.as_str());
    let mut v: Vec<Styled> = Vec::new();
    let mut i: usize = 0;
    while i < cs.len()
        invariant
            i <= cs.len(),
            runs_view(v@) == explode(cs@.take(i as int), plain_style()),
        decreases cs.len() - i,
    {
        let r = char_styled(cs[i], Style::default());
        proof {
            lemma_runs_view_push(v@, r);
            lemma_explode_take(cs@, plain_style(), i as int);
        }
        v.push(r);
        i = i + 1;
    }
    assert(cs@.take(i as int) =~= cs@);
    v
}

/// Wraps the accumulated inline content to the width left by the list
/// indent and marker, and appends the lines to `out`.
pub fn flush_inline(
    out: &mut Vec<Line>,
    block: &mut Block,
    width: usize,
    marker: &mut Option<String>,
    indent: usize,
)
    ensures
        lines_view(final(out)@) == lines_view(old(out)@) + flush_lines(
            old(block)@,
            width as nat,
            opt_view(*old(marker)),
            indent as nat,
        ),
        final(block)@ == Seq::<Run>::empty(),
        opt_view(*final(marker)) == flush_marker(old(block)@, opt_view(*old(marker))),
{
    let mut runs: Vec<Styled> = Vec::new();
    std::mem::swap(&mut runs, &mut block.runs);
    assert(block@ =~= Seq::<Run>::empty());
    if runs.len() == 0 {
        assert(lines_view(out@) =~= lines_view(out@) + Seq::<Seq<Run>>::empty());
        return;
    }
    let mw: usize = match marker {
        Some(m) => display_width(m.as_str()),
        None => 0,
    };
    let wrap_w = width.saturating_sub(indent.saturating_add(mw));
    let lines = wrap_runs(&runs, wrap_w);
    let ghost wl = lines_view(lines@);
    let ghost m0 = opt_view(*marker);
    let ghost out0 = lines_view(out@);
    let ghost dec = decorate(wl, m0, indent as nat);
    assert(wrap_w as nat == text_room(width as nat, m0, indent as nat));
    let mut first = true;
    let mut k: usize = 0;
    let mut lines = lines;
    let ghost lines0 = lines@;
    let n = lines.len();
    assert(lines0.skip(0) =~= lines0);
    while k < n
        invariant
            n == lines0.len(),
            lines@ == lines0.skip(k as int),
            dec.len() == n,
            dec == decorate(wl, m0, indent as nat),
            wl == lines_view(lines0),
            k <= n,
            first == (k == 0),
            k == 0 ==> opt_view(*marker) == m0,
            k > 0 ==> *marker == None::<String>,
            lines_view(out@) == out0 + dec.take(k as int),
        decreases n - k,
    {
        let ln = lines.remove(0);
        let mut taken = ln.runs;
        assert(runs_view(taken@) == wl[k as int]);
        assert(lines@ =~= lines0.skip(k + 1));
        let mut row: Vec<Styled> = Vec::new();
        let mut m: Option<String> = None;
        std::mem::swap(&mut m, marker);
        let ghost mv = opt_view(m);
        match m {
            Some(mk) => {
                let lead = if indent >= 2 {
                    indent - 2
                } else {
                    0
                };
                let mut full = spaces_string(lead);
                full.append(mk.as_str());
                row = marker_runs(&full);
            },
            None => {},
        }
        assert(runs_view(row@) =~= (match mv {
            Some(mm) => explode(spaces(marker_lead(indent as nat)) + mm, plain_style()),
            None => Seq::<Run>::empty(),
        }));
        if !first {
            let pad = Styled { text: spaces_string(indent), style: Style::default() };
            proof {
                lemma_runs_view_push(row@, pad);
            }
            row.push(pad);
            assert(runs_view(row@) =~= seq![(spaces(indent as nat), plain_style())]);
        }
        proof {
            lemma_runs_view_concat(row@, taken@);
        }
        row.append(&mut taken);
        let line = Line { runs: row };
        proof {
            lemma_lines_view_push(out@, line);
            assert(line@ == runs_view(row@));
            lemma_decorate_at(wl, m0, indent as nat, k as int);
            if k == 0 {
                assert(mv == m0);
                match m0 {
                    Some(mm) => {
                        assert(dec[k as int] == explode(spaces(marker_lead(indent as nat)) + mm, plain_style()) + wl[0]);
                    },
                    None => {
                        assert(dec[k as int] == wl[0]);
                        assert(line@ =~= wl[0]);
                    },
                }
            } else {
                assert(dec[k as int] == seq![(spaces(indent as nat), plain_style())] + wl[k as int]);
            }
            assert(line@ =~= dec[k as int]);
            assert(out0 + dec.take(k + 1) =~= (out0 + dec.take(k as int)).push(dec[k as int]));
        }
        out.push(line);
        first = false;
        k = k + 1;
    }
    assert(dec.take(k as int) =~= dec);
}

} // verus!

verus! {

/// `l` without the blank single-character runs at its end.
pub open spec fn trim_blanks(l: Seq<Run>) -> Seq<Run>
    decreases l.len(),
{
    if l.len() > 0 && is_blank(l.last().0[0]) {
        trim_blanks(l.drop_last())
    } else {
        l
    }
}

/// The cells of a list of runs are its characters, one per run.
pub proof fn lemma_cells_of_text(runs: Seq<Run>)
    ensures
        cells_of(runs).len() == runs_text(runs).len(),
        forall|i: int|
            0 <= i < cells_of(runs).len() ==> (#[trigger] cells_of(runs)[i]).0 == seq![runs_text(runs)[i]],
    decreases runs.len(),
{
    if runs.len() > 0 {
        let p = runs.drop_last();
        lemma_cells_of_text(p);
        let t = runs.last().0;
        let e = explode(t, runs.last().1);
        assert(cells_of(runs) == cells_of(p) + e);
        assert(runs_text(runs) == runs_text(p) + t);
        assert forall|i: int| 0 <= i < cells_of(runs).len() implies (#[trigger] cells_of(runs)[i]).0
            == seq![runs_text(runs)[i]] by {
            let n = cells_of(p).len() as int;
            if i >= n {
                assert(e[i - n] == char_run(t[i - n], runs.last().1));
            }
        }
    }
}

/// Every finished line fits, is non-empty and ends with a word character;
/// the line being filled fits and ends with a word character; only blanks
/// are held back.
spec fn fits_inv(s: WrapView, width: nat) -> bool {
    &&& forall|i: int|
        0 <= i < s.lines.len() ==> {
            &&& runs_width(#[trigger] s.lines[i]) <= width
            &&& s.lines[i].len() > 0
            &&& !is_blank(s.lines[i].last().0[0])
        }
    &&& runs_width(s.cur) <= width
    &&& s.cur.len() > 0 ==> !is_blank(s.cur.last().0[0])
    &&& s.cur.len() == 0 ==> s.space.len() == 0
    &&& forall|i: int| 0 <= i < s.space.len() ==> is_blank((#[trigger] s.space[i]).0[0])
}

/// Cells of one character each, none wider than `width`.
spec fn narrow_cells(cells: Seq<Run>, width: nat) -> bool {
    forall|i: int|
        0 <= i < cells.len() ==> (#[trigger] cells[i]).0.len() == 1 && (!is_blank(cells[i].0[0])
            ==> char_width(cells[i].0[0]) <= width)
}

proof fn lemma_cell_width(cur: Seq<Run>, space: Seq<Run>, cell: Run)
    requires
        cell.0.len() == 1,
    ensures
        runs_width(cur + space + seq![cell]) == runs_width(cur) + runs_width(space) + char_width(
            cell.0[0],
        ),
        (cur + space + seq![cell]).last() == cell,
        (cur + space + seq![cell]).len() > 0,
{
    lemma_runs_width_concat(cur, space);
    lemma_runs_width_push(cur + space, cell);
    assert(cur + space + seq![cell] =~= (cur + space).push(cell));
    assert(cell.0 =~= seq![cell.0[0]]);
    lemma_char_width_single(cell.0[0]);
}

/// Where a word begins, the look-ahead is at least the first character.
proof fn lemma_lookahead_covers(cells: Seq<Run>, i: int)
    requires
        0 <= i < cells.len(),
        !is_blank(cells[i].0[0]),
    ensures
        lookahead(cells, i) >= char_width(cells[i].0[0]),
{
}

proof fn lemma_wrap_inv(cells: Seq<Run>, k: int, width: nat)
    requires
        0 <= k <= cells.len(),
        width < usize::MAX,
        narrow_cells(cells, width),
        cells.len() > 0 ==> !is_blank(cells[0].0[0]),
    ensures
        fits_inv(wrap_upto(cells, k, width), width),
        k > 0 ==> wrap_upto(cells, k, width).cur.len() > 0,
    decreases k,
{
    if k > 0 {
        lemma_wrap_inv(cells, k - 1, width);
        let s = wrap_upto(cells, k - 1, width);
        let cell = cells[k - 1];
        let ch = cell.0[0];
        let cw = char_width(ch);
        let ahead = lookahead(cells, k - 1);
        if !is_blank(ch) {
            lemma_lookahead_covers(cells, k - 1);
            let s1 = if clamp(runs_width(s.cur) + runs_width(s.space) + ahead) > width && s.cur.len() > 0 {
                WrapView { lines: s.lines.push(s.cur), cur: Seq::empty(), space: Seq::empty() }
            } else {
                s
            };
            assert(runs_width(Seq::<Run>::empty()) == 0);
            assert(s1.cur.len() > 0 ==> runs_width(s1.cur) + runs_width(s1.space) + cw <= width);
            assert(fits_inv(s1, width));
            lemma_cell_width(s1.cur, s1.space, cell);
        } else {
            assert(k - 1 > 0);
        }
    }
}

/// Whether every run holds exactly one character.
pub open spec fn single_chars(cells: Seq<Run>) -> bool {
    forall|i: int| 0 <= i < cells.len() ==> #[trigger] cells[i].0.len() == 1
}

pub proof fn lemma_cells_single(runs: Seq<Run>)
    ensures
        single_chars(cells_of(runs)),
    decreases runs.len(),
{
    if runs.len() > 0 {
        lemma_cells_single(runs.drop_last());
        let a = cells_of(runs.drop_last());
        let b = explode(runs.last().0, runs.last().1);
        assert forall|i: int| 0 <= i < (a + b).len() implies #[trigger] (a + b)[i].0.len() == 1 by {
            if i >= a.len() {
                assert((a + b)[i] == b[i - a.len()]);
            }
        }
    }
}

/// The cell where the word holding cell `i` begins.
pub open spec fn word_start(cells: Seq<Run>, i: int) -> int
    decreases i,
{
    if i <= 0 || is_blank(cells[i - 1].0[0]) {
        i
    } else {
        word_start(cells, i - 1)
    }
}

/// Once a word character has been consumed, a line is being filled and no
/// whitespace is held.
proof fn lemma_after_word_char(cells: Seq<Run>, k: int, width: nat)
    requires
        1 <= k <= cells.len(),
        !is_blank(cells[k - 1].0[0]),
    ensures
        wrap_upto(cells, k, width).cur.len() > 0,
        wrap_upto(cells, k, width).space.len() == 0,
{
    let s = wrap_upto(cells, k - 1, width);
    let cell = cells[k - 1];
    let ahead = lookahead(cells, k - 1);
    let cw = char_width(cell.0[0]);
    let s1 = if clamp(runs_width(s.cur) + runs_width(s.space) + ahead) > width && s.cur.len() > 0 {
        WrapView { lines: s.lines.push(s.cur), cur: Seq::empty(), space: Seq::empty() }
    } else {
        s
    };
    let s2 = if clamp(runs_width(s1.cur) + cw) > width && s1.cur.len() > 0 {
        WrapView { lines: s1.lines.push(s1.cur), cur: Seq::empty(), space: s1.space }
    } else {
        s1
    };
    assert(wrap_upto(cells, k, width).cur == s2.cur + s2.space + seq![cell]);
}

/// The line being filled is never empty once a word character is in.
proof fn lemma_cur_filled(cells: Seq<Run>, k: int, width: nat)
    requires
        0 <= k <= cells.len(),
        cells.len() > 0 ==> !is_blank(cells[0].0[0]),
    ensures
        k > 0 ==> wrap_upto(cells, k, width).cur.len() > 0,
        k == 0 ==> wrap_upto(cells, k, width) == wrap_start(),
    decreases k,
{
    if k > 0 {
        lemma_cur_filled(cells, k - 1, width);
        if !is_blank(cells[k - 1].0[0]) {
            lemma_after_word_char(cells, k, width);
        }
    }
}

/// After a word character: the rest of its word still fits on the line
/// being filled, or the word is wider than a line.
proof fn lemma_word_inv(cells: Seq<Run>, k: int, width: nat)
    requires
        1 <= k <= cells.len(),
        single_chars(cells),
        width < usize::MAX,
        !is_blank(cells[0].0[0]),
        !is_blank(cells[k - 1].0[0]),
    ensures
        runs_width(wrap_upto(cells, k, width).cur) + word_width(cells, k) <= width || word_width(
            cells,
            word_start(cells, k - 1),
        ) > width,
    decreases k,
{
    let i = k - 1;
    let s = wrap_upto(cells, i, width);
    let cell = cells[i];
    let cw = char_width(cell.0[0]);
    let ahead = lookahead(cells, i);
    let s3 = wrap_upto(cells, k, width);
    lemma_cur_filled(cells, i, width);
    assert(runs_width(Seq::<Run>::empty()) == 0);
    assert(word_width(cells, i) == cw + word_width(cells, k));
    if i == 0 || is_blank(cells[i - 1].0[0]) {
        assert(word_start(cells, i) == i);
        assert(ahead == word_width(cells, i));
        if i > 0 && runs_width(s.cur) + runs_width(s.space) + ahead <= width {
            lemma_cell_width(s.cur, s.space, cell);
            assert(s3.cur == s.cur + s.space + seq![cell]);
        } else {
            lemma_cell_width(Seq::<Run>::empty(), Seq::<Run>::empty(), cell);
            assert(s3.cur =~= Seq::<Run>::empty() + Seq::<Run>::empty() + seq![cell]);
        }
    } else {
        lemma_word_inv(cells, i, width);
        lemma_after_word_char(cells, i, width);
        assert(word_start(cells, i) == word_start(cells, i - 1));
        assert(ahead == cw);
        if runs_width(s.cur) + word_width(cells, i) <= width {
            lemma_cell_width(s.cur, s.space, cell);
            assert(s.space =~= Seq::<Run>::empty());
            assert(s3.cur == s.cur + s.space + seq![cell]);
        }
    }
}

/// Wrapping breaks on whitespace: no line ends inside a word that is at
/// most `width` columns wide (only wider words are split). Cell `k` and the
/// cell before it belong to one word; consuming cell `k` starts no new line
/// when that word fits. This holds when the text does not start with a
/// blank.
pub proof fn law_wrap_keeps_short_words(cells: Seq<Run>, width: nat, k: int)
    requires
        width < usize::MAX,
        0 < k < cells.len(),
        single_chars(cells),
        !is_blank(cells[0].0[0]),
        !is_blank(cells[k].0[0]),
        !is_blank(cells[k - 1].0[0]),
        word_width(cells, word_start(cells, k)) <= width,
    ensures
        wrap_upto(cells, k + 1, width).lines == wrap_upto(cells, k, width).lines,
{
    lemma_word_inv(cells, k, width);
    lemma_after_word_char(cells, k, width);
    assert(word_start(cells, k) == word_start(cells, k - 1));
    let s = wrap_upto(cells, k, width);
    let cw = char_width(cells[k].0[0]);
    assert(word_width(cells, k) == cw + word_width(cells, k + 1));
    assert(lookahead(cells, k) == cw);
    assert(runs_width(s.space) == 0) by {
        assert(s.space =~= Seq::<Run>::empty());
        assert(runs_text(Seq::<Run>::empty()) == Seq::<char>::empty());
    }
}

/// A trailing list of blanks disappears when trimming.
proof fn lemma_trim_blank_suffix(a: Seq<Run>, b: Seq<Run>)
    requires
        forall|i: int| 0 <= i < b.len() ==> is_blank((#[trigger] b[i]).0[0]),
    ensures
        trim_blanks(a + b) == trim_blanks(a),
    decreases b.len(),
{
    if b.len() == 0 {
        assert(a + b =~= a);
    } else {
        assert((a + b).last() == b[b.len() - 1]);
        assert((a + b).drop_last() =~= a + b.drop_last());
        lemma_trim_blank_suffix(a, b.drop_last());
    }
}

/// Paragraphs wrap to fit: once the blanks that end a line are set aside,
/// every wrapped line is at most `width` columns wide, and only the last
/// line can end with blanks. This holds when no single character is wider
/// than `width` and the text does not start with a blank.
pub proof fn law_wrap_fits(runs: Seq<Run>, width: nat)
    requires
        width < usize::MAX,
        forall|i: int|
            0 <= i < runs_text(runs).len() && !is_blank(runs_text(runs)[i]) ==> char_width(
                #[trigger] runs_text(runs)[i],
            ) <= width,
        runs_text(runs).len() > 0 ==> !is_blank(runs_text(runs)[0]),
    ensures
        forall|i: int|
            0 <= i < wrap_lines(cells_of(runs), width).len() ==> runs_width(
                trim_blanks(#[trigger] wrap_lines(cells_of(runs), width)[i]),
            ) <= width,
        forall|i: int|
            0 <= i < wrap_lines(cells_of(runs), width).len() - 1 ==> trim_blanks(
                #[trigger] wrap_lines(cells_of(runs), width)[i],
            ) == wrap_lines(cells_of(runs), width)[i],
        runs_text(runs).len() > 0 && !is_blank(runs_text(runs).last()) ==> forall|i: int|
            0 <= i < wrap_lines(cells_of(runs), width).len() ==> runs_width(
                #[trigger] wrap_lines(cells_of(runs), width)[i],
            ) <= width,
        wrap_lines(cells_of(runs), width).len() >= 1,
{
    let cells = cells_of(runs);
    lemma_cells_of_text(runs);
    assert forall|i: int| 0 <= i < cells.len() implies (#[trigger] cells[i]).0.len() == 1 && (!is_blank(
        cells[i].0[0],
    ) ==> char_width(cells[i].0[0]) <= width) by {
        assert(cells[i].0 == seq![runs_text(runs)[i]]);
    }
    if cells.len() > 0 {
        assert(cells[0].0 == seq![runs_text(runs)[0]]);
    }
    lemma_wrap_inv(cells, cells.len() as int, width);
    let s = wrap_fold(cells, width);
    let last = s.cur + s.space;
    lemma_trim_blank_suffix(s.cur, s.space);
    assert(trim_blanks(s.cur) == s.cur);
    let lines = wrap_lines(cells, width);
    assert(trim_blanks(Seq::<Run>::empty()) == Seq::<Run>::empty());
    assert(runs_width(Seq::<Run>::empty()) == 0);
    assert forall|i: int| 0 <= i < s.lines.len() implies trim_blanks(#[trigger] s.lines[i]) == s.lines[i] by {
        assert(s.lines[i].len() > 0 && !is_blank(s.lines[i].last().0[0]));
    }
    if last.len() > 0 {
        assert(lines == s.lines.push(last));
        assert forall|i: int| 0 <= i < lines.len() implies runs_width(trim_blanks(#[trigger] lines[i]))
            <= width by {
            if i < s.lines.len() {
                assert(lines[i] == s.lines[i]);
            }
        }
    } else if s.lines.len() > 0 {
        assert(lines == s.lines);
        assert(s.cur.len() == 0 ==> s.lines.len() == 0) by {
            if s.cur.len() == 0 && s.lines.len() > 0 {
                assert(cells.len() > 0);
            }
        }
    }
    if runs_text(runs).len() > 0 && !is_blank(runs_text(runs).last()) {
        let n = cells.len() as int;
        assert(cells[n - 1].0 == seq![runs_text(runs)[n - 1]]);
        lemma_after_word_char(cells, n, width);
        assert(last =~= s.cur);
        assert forall|i: int| 0 <= i < lines.len() implies runs_width(#[trigger] lines[i]) <= width by {
            if i < s.lines.len() {
                assert(lines[i] == s.lines[i]);
            } else {
                assert(lines[i] == s.cur);
            }
        }
    }
}

/// Lines break only between words: every line but the first begins with a
/// word character, and every line but the last is non-empty and ends with
/// a word character.
pub proof fn law_wrap_edges(cells: Seq<Run>, width: nat)
    ensures
        forall|i: int|
            0 < i < wrap_lines(cells, width).len() ==> (#[trigger] wrap_lines(cells, width)[i]).len() > 0
                && !is_blank(wrap_lines(cells, width)[i][0].0[0]),
        forall|i: int|
            0 <= i < wrap_lines(cells, width).len() - 1 ==> (#[trigger] wrap_lines(cells, width)[i]).len()
                > 0 && !is_blank(wrap_lines(cells, width)[i].last().0[0]),
{
    lemma_edges_inv(cells, cells.len() as int, width);
    let s = wrap_fold(cells, width);
    let last = s.cur + s.space;
    let lines = wrap_lines(cells, width);
    if last.len() > 0 {
        assert(lines == s.lines.push(last));
        assert forall|i: int| 0 < i < lines.len() implies (#[trigger] lines[i]).len() > 0 && !is_blank(
            lines[i][0].0[0],
        ) by {
            if i < s.lines.len() {
                assert(lines[i] == s.lines[i]);
            } else {
                assert(lines[i] == last);
                assert(last[0] == s.cur[0]);
            }
        }
        assert forall|i: int| 0 <= i < lines.len() - 1 implies (#[trigger] lines[i]).len() > 0 && !is_blank(
            lines[i].last().0[0],
        ) by {
            assert(lines[i] == s.lines[i]);
        }
    } else if s.lines.len() == 0 {
        assert(lines.len() == 1);
    }
}

/// No line is broken early: when consuming word character `k` starts a new
/// line, either `k` begins a word that does not fit after the line being
/// filled and the whitespace held since it, or the word holding `k` is
/// wider than `width`. This holds when the text does not start with a
/// blank.
pub proof fn law_wrap_breaks_only_when_needed(cells: Seq<Run>, width: nat, k: int)
    requires
        width < usize::MAX,
        0 <= k < cells.len(),
        single_chars(cells),
        !is_blank(cells[0].0[0]),
        !is_blank(cells[k].0[0]),
        wrap_upto(cells, k + 1, width).lines.len() > wrap_upto(cells, k, width).lines.len(),
    ensures
        (starts_word(cells, k) && runs_width(wrap_upto(cells, k, width).cur) + runs_width(
            wrap_upto(cells, k, width).space,
        ) + word_width(cells, k) > width) || word_width(cells, word_start(cells, k)) > width,
{
    let s = wrap_upto(cells, k, width);
    let cell = cells[k];
    let cw = char_width(cell.0[0]);
    let ahead = lookahead(cells, k);
    if starts_word(cells, k) {
        assert(ahead == cw + word_width(cells, k + 1));
        assert(ahead == word_width(cells, k));
    } else {
        if word_width(cells, word_start(cells, k)) <= width {
            law_wrap_keeps_short_words(cells, width, k);
        }
    }
}

/// Whether `b` is `a` with some of its blank cells left out (every other
/// cell kept, in order, with its style).
pub open spec fn blanks_dropped(a: Seq<Run>, b: Seq<Run>) -> bool
    decreases a.len(),
{
    if a.len() == 0 {
        b.len() == 0
    } else {
        (b.len() > 0 && a.last() == b.last() && blanks_dropped(a.drop_last(), b.drop_last())) || (
        is_blank(a.last().0[0]) && blanks_dropped(a.drop_last(), b))
    }
}

proof fn lemma_dropped_append(a: Seq<Run>, b: Seq<Run>, x: Seq<Run>)
    requires
        blanks_dropped(a, b),
    ensures
        blanks_dropped(a + x, b + x),
    decreases x.len(),
{
    if x.len() == 0 {
        assert(a + x =~= a);
        assert(b + x =~= b);
    } else {
        lemma_dropped_append(a, b, x.drop_last());
        assert((a + x).drop_last() =~= a + x.drop_last());
        assert((b + x).drop_last() =~= b + x.drop_last());
    }
}

proof fn lemma_dropped_blanks(a: Seq<Run>, b: Seq<Run>, sp: Seq<Run>)
    requires
        blanks_dropped(a, b),
        forall|i: int| 0 <= i < sp.len() ==> is_blank((#[trigger] sp[i]).0[0]),
    ensures
        blanks_dropped(a + sp, b),
    decreases sp.len(),
{
    if sp.len() == 0 {
        assert(a + sp =~= a);
    } else {
        lemma_dropped_blanks(a, b, sp.drop_last());
        assert((a + sp).drop_last() =~= a + sp.drop_last());
        assert((a + sp).last() == sp[sp.len() - 1]);
    }
}

/// Invariant for `law_wrap_drops_only_blanks`: the held whitespace is the
/// last cells consumed, and what came before it is kept in the lines and
/// the line being filled, but for blanks left out.
spec fn dropped_inv(cells: Seq<Run>, k: int, s: WrapView) -> bool {
    &&& s.space.len() <= k
    &&& cells.take(k).skip(k - s.space.len()) == s.space
    &&& blanks_dropped(cells.take(k - s.space.len()), s.lines.flatten_alt() + s.cur)
}

proof fn lemma_dropped_inv(cells: Seq<Run>, k: int, width: nat)
    requires
        0 <= k <= cells.len(),
    ensures
        dropped_inv(cells, k, wrap_upto(cells, k, width)),
    decreases k,
{
    if k == 0 {
        assert(cells.take(0) =~= Seq::<Run>::empty());
        assert(cells.take(0).skip(0) =~= Seq::<Run>::empty());
        let s0 = wrap_upto(cells, 0, width);
        assert(s0.lines.flatten_alt() + s0.cur =~= Seq::<Run>::empty());
        assert(cells.take(0 - s0.space.len()) =~= Seq::<Run>::empty());
        assert(blanks_dropped(Seq::<Run>::empty(), Seq::<Run>::empty()));
        assert(dropped_inv(cells, k, s0));
    } else {
        let i = k - 1;
        lemma_dropped_inv(cells, i, width);
        lemma_space_blank(cells, i, width);
        let s = wrap_upto(cells, i, width);
        let cell = cells[i];
        let ch = cell.0[0];
        let cw = char_width(ch);
        let ahead = lookahead(cells, i);
        let j = i - s.space.len();
        let s3 = wrap_upto(cells, k, width);
        assert(cells.take(k) =~= cells.take(i).push(cell));
        assert(cells.take(i) =~= cells.take(j) + s.space) by {
            assert(cells.take(i) =~= cells.take(i).take(j) + cells.take(i).skip(j));
            assert(cells.take(i).take(j) =~= cells.take(j));
        }
        if is_blank(ch) {
            assert(s3.space == s.space.push(cell));
            assert(cells.take(k).skip(k - s3.space.len()) =~= s.space.push(cell));
            assert(cells.take(k - s3.space.len()) =~= cells.take(j));
            assert(s3.lines == s.lines && s3.cur == s.cur);
            assert(dropped_inv(cells, k, s3));
        } else {
            let s1 = if clamp(runs_width(s.cur) + runs_width(s.space) + ahead) > width && s.cur.len() > 0 {
                WrapView { lines: s.lines.push(s.cur), cur: Seq::empty(), space: Seq::empty() }
            } else {
                s
            };
            let s2 = if clamp(runs_width(s1.cur) + cw) > width && s1.cur.len() > 0 {
                WrapView { lines: s1.lines.push(s1.cur), cur: Seq::empty(), space: s1.space }
            } else {
                s1
            };
            assert(s3.space.len() == 0);
            assert(cells.take(k).skip(k) =~= Seq::<Run>::empty());
            assert(s3.lines == s2.lines);
            assert(s3.cur == s2.cur + s2.space + seq![cell]);
            let base = s.lines.flatten_alt() + s.cur;
            assert(s.lines.push(s.cur).drop_last() =~= s.lines);
            assert(s2.lines.flatten_alt() + s2.cur == base) by {
                if s1 != s {
                    assert(s1.lines.flatten_alt() == base);
                    assert(s1.lines.flatten_alt() + s1.cur =~= base);
                } else if s2 != s1 {
                    assert(s2.lines.flatten_alt() == base);
                    assert(s2.lines.flatten_alt() + s2.cur =~= base);
                }
            }
            if s1 != s || s2 != s1 {
                if s1 == s {
                    assert(s2.space == s.space);
                }
                lemma_dropped_blanks(cells.take(j), base, s.space);
                assert(s2.space.len() == 0 || s1 == s);
                if s2.space.len() == 0 {
                    lemma_dropped_append(cells.take(j) + s.space, base, seq![cell]);
                    assert(s3.lines.flatten_alt() + s3.cur =~= base + seq![cell]);
                    assert(cells.take(j) + s.space + seq![cell] =~= cells.take(k));
                } else {
                    lemma_dropped_append(cells.take(j), base, s.space.push(cell));
                    assert(s3.lines.flatten_alt() + s3.cur =~= base + s.space.push(cell));
                    assert(cells.take(j) + s.space.push(cell) =~= cells.take(k));
                }
            } else {
                lemma_dropped_append(cells.take(j), base, s.space.push(cell));
                assert(s3.lines.flatten_alt() + s3.cur =~= base + s.space.push(cell));
                assert(cells.take(j) + s.space.push(cell) =~= cells.take(k));
            }
            assert(cells.take(k - s3.space.len()) =~= cells.take(k));
            assert(dropped_inv(cells, k, s3));
        }
    }
}

/// Wrapping leaves out only whitespace: reading the wrapped lines one after
/// another gives the text with some blanks left out, every other character
/// in order and in the style of its run.
pub proof fn law_wrap_drops_only_blanks(cells: Seq<Run>, width: nat)
    ensures
        blanks_dropped(cells, wrap_lines(cells, width).flatten()),
{
    let n = cells.len() as int;
    lemma_dropped_inv(cells, n, width);
    let s = wrap_fold(cells, width);
    let j = n - s.space.len();
    assert(cells.take(n) =~= cells);
    assert(cells =~= cells.take(j) + s.space) by {
        assert(cells.take(n) =~= cells.take(n).take(j) + cells.take(n).skip(j));
        assert(cells.take(n).take(j) =~= cells.take(j));
    }
    lemma_dropped_append(cells.take(j), s.lines.flatten_alt() + s.cur, s.space);
    let last = s.cur + s.space;
    let lines = wrap_lines(cells, width);
    lines.lemma_flatten_and_flatten_alt_are_equivalent();
    if last.len() > 0 {
        assert(lines.drop_last() =~= s.lines);
        assert(lines.flatten_alt() =~= s.lines.flatten_alt() + s.cur + s.space);
    } else if s.lines.len() > 0 {
        assert(lines.flatten_alt() =~= s.lines.flatten_alt() + s.cur + s.space);
    } else {
        assert(lines.drop_last() =~= Seq::<Seq<Run>>::empty());
        assert(lines.flatten_alt() =~= Seq::<Run>::empty());
        assert(s.lines.flatten_alt() + s.cur + s.space =~= Seq::<Run>::empty());
    }
}

/// Lines joined by the gaps between them: line 0, gap 0, line 1, gap 1, ...
pub open spec fn joined(lines: Seq<Seq<Run>>, gaps: Seq<Seq<Run>>) -> Seq<Run>
    decreases lines.len(),
{
    if lines.len() == 0 {
        Seq::empty()
    } else if lines.len() == 1 {
        lines[0]
    } else {
        joined(lines.drop_last(), gaps) + gaps[lines.len() - 2] + lines.last()
    }
}

/// The whitespace that wrapping dropped at each break so far (none at a
/// break inside a word).
pub open spec fn wrap_gaps(cells: Seq<Run>, k: int, width: nat) -> Seq<Seq<Run>>
    decreases k,
{
    if k <= 0 {
        Seq::empty()
    } else {
        let s = wrap_upto(cells, k - 1, width);
        let g = wrap_gaps(cells, k - 1, width);
        let cell = cells[k - 1];
        let ch = cell.0[0];
        if is_blank(ch) {
            g
        } else if clamp(runs_width(s.cur) + runs_width(s.space) + lookahead(cells, k - 1)) > width
            && s.cur.len() > 0 {
            g.push(s.space)
        } else if clamp(runs_width(s.cur) + char_width(ch)) > width && s.cur.len() > 0 {
            g.push(Seq::empty())
        } else {
            g
        }
    }
}

/// What came before the line being filled: the finished lines, each
/// followed by its gap.
spec fn before_cur(lines: Seq<Seq<Run>>, gaps: Seq<Seq<Run>>) -> Seq<Run> {
    if lines.len() == 0 {
        Seq::empty()
    } else {
        joined(lines, gaps) + gaps[lines.len() - 1]
    }
}

proof fn lemma_joined_push(lines: Seq<Seq<Run>>, gaps: Seq<Seq<Run>>, x: Seq<Run>)
    ensures
        joined(lines.push(x), gaps) == before_cur(lines, gaps) + x,
{
    assert(lines.push(x).drop_last() =~= lines);
    if lines.len() == 0 {
        assert(Seq::<Run>::empty() + x =~= x);
    }
}

proof fn lemma_joined_same_gaps(lines: Seq<Seq<Run>>, gaps: Seq<Seq<Run>>, more: Seq<Seq<Run>>)
    requires
        lines.len() <= gaps.len() + 1,
    ensures
        joined(lines, gaps) == joined(lines, gaps + more),
    decreases lines.len(),
{
    if lines.len() > 1 {
        lemma_joined_same_gaps(lines.drop_last(), gaps, more);
        assert((gaps + more)[lines.len() - 2] == gaps[lines.len() - 2]);
    }
}

spec fn gaps_inv(cells: Seq<Run>, k: int, s: WrapView, g: Seq<Seq<Run>>) -> bool {
    &&& g.len() == s.lines.len()
    &&& forall|i: int, j: int| 0 <= i < g.len() && 0 <= j < g[i].len() ==> is_blank((#[trigger] g[i][j]).0[0])
    &&& cells.take(k) == before_cur(s.lines, g) + s.cur + s.space
}

proof fn lemma_gaps_inv(cells: Seq<Run>, k: int, width: nat)
    requires
        0 <= k <= cells.len(),
    ensures
        gaps_inv(cells, k, wrap_upto(cells, k, width), wrap_gaps(cells, k, width)),
    decreases k,
{
    if k == 0 {
        assert(cells.take(0) =~= Seq::<Run>::empty());
        let s0 = wrap_upto(cells, 0, width);
        assert(before_cur(s0.lines, Seq::empty()) + s0.cur + s0.space =~= Seq::<Run>::empty());
    } else {
        let i = k - 1;
        lemma_gaps_inv(cells, i, width);
        lemma_space_blank(cells, i, width);
        let s = wrap_upto(cells, i, width);
        let g = wrap_gaps(cells, i, width);
        let cell = cells[i];
        let ch = cell.0[0];
        let cw = char_width(ch);
        let ahead = lookahead(cells, i);
        let s3 = wrap_upto(cells, k, width);
        let g3 = wrap_gaps(cells, k, width);
        let pre = before_cur(s.lines, g);
        assert(cells.take(k) =~= cells.take(i).push(cell));
        if is_blank(ch) {
            assert(s3.lines == s.lines && s3.cur == s.cur && s3.space == s.space.push(cell));
            assert(g3 == g);
            assert(cells.take(k) =~= pre + s3.cur + s3.space);
        } else {
            let s1 = if clamp(runs_width(s.cur) + runs_width(s.space) + ahead) > width && s.cur.len() > 0 {
                WrapView { lines: s.lines.push(s.cur), cur: Seq::empty(), space: Seq::empty() }
            } else {
                s
            };
            let s2 = if clamp(runs_width(s1.cur) + cw) > width && s1.cur.len() > 0 {
                WrapView { lines: s1.lines.push(s1.cur), cur: Seq::empty(), space: s1.space }
            } else {
                s1
            };
            assert(s3.lines == s2.lines);
            assert(s3.cur == s2.cur + s2.space + seq![cell]);
            assert(s3.space.len() == 0);
            if s1 != s {
                assert(g3 == g.push(s.space));
                lemma_joined_same_gaps(s.lines, g, seq![s.space]);
                assert(g.push(s.space) =~= g + seq![s.space]);
                lemma_joined_push(s.lines, g, s.cur);
                assert(before_cur(s3.lines, g3) == joined(s.lines.push(s.cur), g3) + s.space);
                assert(joined(s.lines.push(s.cur), g3) == joined(s.lines.push(s.cur), g)) by {
                    lemma_joined_same_gaps(s.lines.push(s.cur), g, seq![s.space]);
                }
                assert(s3.cur =~= seq![cell]);
                assert(cells.take(k) =~= before_cur(s3.lines, g3) + s3.cur + s3.space);
                assert forall|a: int, b: int| 0 <= a < g3.len() && 0 <= b < g3[a].len() implies is_blank(
                    (#[trigger] g3[a][b]).0[0],
                ) by {
                    if a < g.len() {
                        assert(g3[a] == g[a]);
                    }
                }
            } else if s2 != s1 {
                assert(g3 == g.push(Seq::empty()));
                assert(g.push(Seq::<Run>::empty()) =~= g + seq![Seq::<Run>::empty()]);
                lemma_joined_same_gaps(s.lines.push(s.cur), g, seq![Seq::<Run>::empty()]);
                lemma_joined_push(s.lines, g, s.cur);
                assert(before_cur(s3.lines, g3) =~= pre + s.cur);
                assert(cells.take(k) =~= before_cur(s3.lines, g3) + s3.cur + s3.space);
                assert forall|a: int, b: int| 0 <= a < g3.len() && 0 <= b < g3[a].len() implies is_blank(
                    (#[trigger] g3[a][b]).0[0],
                ) by {
                    if a < g.len() {
                        assert(g3[a] == g[a]);
                    }
                }
            } else {
                assert(g3 == g);
                assert(cells.take(k) =~= before_cur(s3.lines, g3) + s3.cur + s3.space);
            }
        }
    }
}

/// Wrapping drops nothing but the whitespace at line breaks: there are
/// gaps made only of blanks, one between each two lines (empty where a word
/// wider than the line was split), such that the lines joined by them are
/// the text, every character in the style of its run.
pub proof fn law_wrap_joined(cells: Seq<Run>, width: nat)
    ensures
        exists|gaps: Seq<Seq<Run>>|
            {
                &&& #[trigger] gaps.len() + 1 == wrap_lines(cells, width).len()
                &&& forall|i: int, j: int|
                    0 <= i < gaps.len() && 0 <= j < gaps[i].len() ==> is_blank((#[trigger] gaps[i][j]).0[0])
                &&& joined(wrap_lines(cells, width), gaps) == cells
            },
{
    let n = cells.len() as int;
    lemma_gaps_inv(cells, n, width);
    lemma_edges_inv(cells, n, width);
    let s = wrap_fold(cells, width);
    let g = wrap_gaps(cells, n, width);
    assert(cells.take(n) =~= cells);
    let last = s.cur + s.space;
    let lines = wrap_lines(cells, width);
    if last.len() > 0 {
        assert(lines == s.lines.push(last));
        lemma_joined_push(s.lines, g, last);
        assert(joined(lines, g) =~= cells);
        assert(g.len() + 1 == lines.len());
    } else {
        assert(s.lines.len() == 0);
        assert(lines == seq![Seq::<Run>::empty()]);
        assert(cells =~= Seq::<Run>::empty());
        let e = Seq::<Seq<Run>>::empty();
        assert(joined(lines, e) == cells);
        assert(e.len() + 1 == lines.len());
    }
}

proof fn lemma_single_concat(a: Seq<Run>, b: Seq<Run>)
    requires
        single_chars(a + b),
    ensures
        single_chars(a),
        single_chars(b),
{
    assert forall|i: int| 0 <= i < a.len() implies #[trigger] a[i].0.len() == 1 by {
        assert((a + b)[i] == a[i]);
    }
    assert forall|i: int| 0 <= i < b.len() implies #[trigger] b[i].0.len() == 1 by {
        assert((a + b)[a.len() + i] == b[i]);
    }
}

proof fn lemma_joined_single(lines: Seq<Seq<Run>>, gaps: Seq<Seq<Run>>)
    requires
        single_chars(joined(lines, gaps)),
    ensures
        forall|i: int| 0 <= i < lines.len() ==> single_chars(#[trigger] lines[i]),
    decreases lines.len(),
{
    if lines.len() == 1 {
        assert forall|i: int| 0 <= i < lines.len() implies single_chars(#[trigger] lines[i]) by {}
    } else if lines.len() > 1 {
        let p = lines.drop_last();
        lemma_single_concat(joined(p, gaps) + gaps[lines.len() - 2], lines.last());
        lemma_single_concat(joined(p, gaps), gaps[lines.len() - 2]);
        lemma_joined_single(p, gaps);
        assert forall|i: int| 0 <= i < lines.len() implies single_chars(#[trigger] lines[i]) by {
            if i < p.len() {
                assert(lines[i] == p[i]);
            }
        }
    }
}

/// The text of single-character runs is their characters.
proof fn lemma_runs_text_single(x: Seq<Run>)
    requires
        single_chars(x),
    ensures
        runs_text(x).len() == x.len(),
        forall|j: int| 0 <= j < x.len() ==> runs_text(x)[j] == (#[trigger] x[j]).0[0],
    decreases x.len(),
{
    if x.len() > 0 {
        let p = x.drop_last();
        assert forall|i: int| 0 <= i < p.len() implies #[trigger] p[i].0.len() == 1 by {
            assert(p[i] == x[i]);
        }
        lemma_runs_text_single(p);
        assert(x.last() == x[x.len() - 1]);
        assert(x.last().0 =~= seq![x.last().0[0]]);
        assert forall|j: int| 0 <= j < x.len() implies runs_text(x)[j] == (#[trigger] x[j]).0[0] by {
            if j < p.len() {
                assert(x[j] == p[j]);
            }
        }
    }
}

/// Lines break only between words, read as text: every line but the first
/// begins with a character that is not a blank, and every line but the
/// last is non-empty and ends with one.
pub proof fn law_wrap_edges_text(runs: Seq<Run>, width: nat)
    ensures
        forall|i: int|
            0 < i < wrap_lines(cells_of(runs), width).len() ==> runs_text(
                #[trigger] wrap_lines(cells_of(runs), width)[i],
            ).len() > 0 && !is_blank(runs_text(wrap_lines(cells_of(runs), width)[i])[0]),
        forall|i: int|
            0 <= i < wrap_lines(cells_of(runs), width).len() - 1 ==> runs_text(
                #[trigger] wrap_lines(cells_of(runs), width)[i],
            ).len() > 0 && !is_blank(runs_text(wrap_lines(cells_of(runs), width)[i]).last()),
{
    let cells = cells_of(runs);
    let lines = wrap_lines(cells, width);
    lemma_cells_single(runs);
    law_wrap_joined(cells, width);
    law_wrap_edges(cells, width);
    let gaps = choose|gaps: Seq<Seq<Run>>|
        {
            &&& #[trigger] gaps.len() + 1 == wrap_lines(cells, width).len()
            &&& forall|i: int, j: int|
                0 <= i < gaps.len() && 0 <= j < gaps[i].len() ==> is_blank((#[trigger] gaps[i][j]).0[0])
            &&& joined(wrap_lines(cells, width), gaps) == cells
        };
    lemma_joined_single(lines, gaps);
    assert forall|i: int| 0 <= i < lines.len() implies runs_text(#[trigger] lines[i]).len() == lines[i].len()
        && (lines[i].len() > 0 ==> runs_text(lines[i])[0] == lines[i][0].0[0] && runs_text(lines[i]).last()
        == lines[i].last().0[0]) by {
        lemma_runs_text_single(lines[i]);
        if lines[i].len() > 0 {
            assert(lines[i].last() == lines[i][lines[i].len() - 1]);
        }
    }
}

/// Invariant for `law_wrap_edges`.
spec fn edges_inv(s: WrapView) -> bool {
    &&& forall|i: int|
        0 <= i < s.lines.len() ==> (#[trigger] s.lines[i]).len() > 0 && !is_blank(s.lines[i].last().0[0])
    &&& forall|i: int| 0 < i < s.lines.len() ==> !is_blank((#[trigger] s.lines[i])[0].0[0])
    &&& s.cur.len() > 0 ==> !is_blank(s.cur.last().0[0])
    &&& s.lines.len() > 0 ==> s.cur.len() > 0 && !is_blank(s.cur[0].0[0])
}

proof fn lemma_edges_inv(cells: Seq<Run>, k: int, width: nat)
    requires
        0 <= k <= cells.len(),
    ensures
        edges_inv(wrap_upto(cells, k, width)),
    decreases k,
{
    if k > 0 {
        lemma_edges_inv(cells, k - 1, width);
        let i = k - 1;
        let s = wrap_upto(cells, i, width);
        let cell = cells[i];
        let ch = cell.0[0];
        let cw = char_width(ch);
        let ahead = lookahead(cells, i);
        if !is_blank(ch) {
            let s1 = if clamp(runs_width(s.cur) + runs_width(s.space) + ahead) > width && s.cur.len() > 0 {
                WrapView { lines: s.lines.push(s.cur), cur: Seq::empty(), space: Seq::empty() }
            } else {
                s
            };
            let s2 = if clamp(runs_width(s1.cur) + cw) > width && s1.cur.len() > 0 {
                WrapView { lines: s1.lines.push(s1.cur), cur: Seq::empty(), space: s1.space }
            } else {
                s1
            };
            if s2 != s1 {
                assert(s1 == s);
                if starts_word(cells, i) {
                    assert(ahead == cw + word_width(cells, i + 1));
                    assert(false);
                } else {
                    lemma_after_word_char(cells, i, width);
                }
                assert(s1.space.len() == 0);
            }
            let s3 = wrap_upto(cells, k, width);
            assert(s3.cur == s2.cur + s2.space + seq![cell]);
            assert(s3.lines == s2.lines);
            assert(s3.cur.last() == cell);
            if s1 != s {
                assert(s2 == s1);
                assert(s3.lines == s.lines.push(s.cur));
                assert(s3.cur =~= seq![cell]);
                assert forall|j: int| 0 < j < s3.lines.len() implies !is_blank((#[trigger] s3.lines[j])[0].0[0]) by {
                    if j < s.lines.len() {
                        assert(s3.lines[j] == s.lines[j]);
                    }
                }
            } else if s2 != s1 {
                assert(s3.lines == s.lines.push(s.cur));
                assert(s3.cur =~= seq![cell]);
                assert forall|j: int| 0 < j < s3.lines.len() implies !is_blank((#[trigger] s3.lines[j])[0].0[0]) by {
                    if j < s.lines.len() {
                        assert(s3.lines[j] == s.lines[j]);
                    }
                }
            } else {
                assert(s3.lines == s.lines);
                if s.cur.len() > 0 {
                    assert(s3.cur[0] == s.cur[0]);
                }
            }
            assert(edges_inv(s3));
        } else {
            let s3 = wrap_upto(cells, k, width);
            assert(s3.lines == s.lines && s3.cur == s.cur);
        }
    }
}

/// The word characters of a list of cells, in order: the cells that are
/// not blanks.
pub open spec fn words(cells: Seq<Run>) -> Seq<Run>
    decreases cells.len(),
{
    if cells.len() == 0 {
        Seq::empty()
    } else if is_blank(cells.last().0[0]) {
        words(cells.drop_last())
    } else {
        words(cells.drop_last()).push(cells.last())
    }
}

proof fn lemma_words_concat(a: Seq<Run>, b: Seq<Run>)
    ensures
        words(a + b) == words(a) + words(b),
    decreases b.len(),
{
    if b.len() == 0 {
        assert(a + b =~= a);
        assert(words(a) + words(b) =~= words(a));
    } else {
        assert((a + b).drop_last() =~= a + b.drop_last());
        assert((a + b).last() == b.last());
        lemma_words_concat(a, b.drop_last());
        assert(words(a) + words(b.drop_last()).push(b.last()) =~= (words(a) + words(b.drop_last())).push(
            b.last(),
        ));
    }
}

proof fn lemma_words_blanks(b: Seq<Run>)
    requires
        forall|i: int| 0 <= i < b.len() ==> is_blank((#[trigger] b[i]).0[0]),
    ensures
        words(b) == Seq::<Run>::empty(),
    decreases b.len(),
{
    if b.len() > 0 {
        assert(b.last() == b[b.len() - 1]);
        lemma_words_blanks(b.drop_last());
    }
}

/// Everything wrapping has seen: the finished lines, the line being filled
/// and the held whitespace.
spec fn wrap_seen(s: WrapView) -> Seq<Run> {
    s.lines.flatten_alt() + s.cur + s.space
}

proof fn lemma_space_blank(cells: Seq<Run>, k: int, width: nat)
    ensures
        forall|i: int|
            0 <= i < wrap_upto(cells, k, width).space.len() ==> is_blank(
                (#[trigger] wrap_upto(cells, k, width).space[i]).0[0],
            ),
    decreases k,
{
    if k > 0 {
        lemma_space_blank(cells, k - 1, width);
        let s = wrap_upto(cells, k - 1, width);
        let s3 = wrap_upto(cells, k, width);
        let cell = cells[k - 1];
        if is_blank(cell.0[0]) {
            assert(s3.space == s.space.push(cell));
            assert forall|i: int| 0 <= i < s3.space.len() implies is_blank((#[trigger] s3.space[i]).0[0]) by {
                if i < s.space.len() {
                    assert(s3.space[i] == s.space[i]);
                }
            }
        } else {
            assert(s3.space.len() == 0);
        }
    }
}

proof fn lemma_wrap_words(cells: Seq<Run>, k: int, width: nat)
    requires
        0 <= k <= cells.len(),
    ensures
        words(wrap_seen(wrap_upto(cells, k, width))) == words(cells.take(k)),
    decreases k,
{
    if k == 0 {
        assert(cells.take(0) =~= Seq::<Run>::empty());
        assert(wrap_seen(wrap_start()) =~= Seq::<Run>::empty());
    } else {
        lemma_wrap_words(cells, k - 1, width);
        lemma_space_blank(cells, k - 1, width);
        let s = wrap_upto(cells, k - 1, width);
        let cell = cells[k - 1];
        let ch = cell.0[0];
        let cw = char_width(ch);
        let ahead = lookahead(cells, k - 1);
        assert(cells.take(k).drop_last() =~= cells.take(k - 1));
        assert(cells.take(k).last() == cell);
        lemma_words_concat(s.lines.flatten_alt() + s.cur, s.space);
        lemma_words_concat(s.lines.flatten_alt(), s.cur);
        lemma_words_blanks(s.space);
        if is_blank(ch) {
            assert(wrap_seen(wrap_upto(cells, k, width)) =~= wrap_seen(s).push(cell));
            assert(wrap_seen(s).push(cell).drop_last() =~= wrap_seen(s));
        } else {
            let s1 = if clamp(runs_width(s.cur) + runs_width(s.space) + ahead) > width && s.cur.len() > 0 {
                WrapView { lines: s.lines.push(s.cur), cur: Seq::empty(), space: Seq::empty() }
            } else {
                s
            };
            let s2 = if clamp(runs_width(s1.cur) + cw) > width && s1.cur.len() > 0 {
                WrapView { lines: s1.lines.push(s1.cur), cur: Seq::empty(), space: s1.space }
            } else {
                s1
            };
            assert(s.lines.push(s.cur).drop_last() =~= s.lines);
            assert(s1.lines.push(s1.cur).drop_last() =~= s1.lines);
            assert(words(s1.lines.flatten_alt() + s1.cur) == words(s.lines.flatten_alt() + s.cur)) by {
                if s1 != s {
                    assert(s1.lines.flatten_alt() + s1.cur =~= s.lines.flatten_alt() + s.cur);
                }
            }
            assert(words(s2.lines.flatten_alt() + s2.cur) == words(s1.lines.flatten_alt() + s1.cur)) by {
                if s2 != s1 {
                    assert(s2.lines.flatten_alt() + s2.cur =~= s1.lines.flatten_alt() + s1.cur);
                }
            }
            let s3 = wrap_upto(cells, k, width);
            assert(s3.lines == s2.lines);
            assert(wrap_seen(s3) =~= (s2.lines.flatten_alt() + s2.cur + s2.space).push(cell));
            if s1 != s {
                lemma_words_blanks(s1.space);
            }
            lemma_words_concat(s2.lines.flatten_alt() + s2.cur, s2.space);
            assert forall|i: int| 0 <= i < s2.space.len() implies is_blank((#[trigger] s2.space[i]).0[0]) by {
                if s1 == s {
                    assert(s2.space[i] == s.space[i]);
                }
            }
            lemma_words_blanks(s2.space);
            let x = s2.lines.flatten_alt() + s2.cur + s2.space;
            assert(x.push(cell).drop_last() =~= x);
            assert(words(x) == words(s2.lines.flatten_alt() + s2.cur));
            assert(words(x.push(cell)) == words(x).push(cell));
        }
    }
}

/// Wrapping loses no word and changes no order: the word characters of the
/// wrapped lines, read line after line, are those of the text. Only blanks
/// at a line break are dropped.
pub proof fn law_wrap_keeps_words(cells: Seq<Run>, width: nat)
    ensures
        words(wrap_lines(cells, width).flatten()) == words(cells),
{
    lemma_wrap_words(cells, cells.len() as int, width);
    assert(cells.take(cells.len() as int) =~= cells);
    let s = wrap_fold(cells, width);
    let last = s.cur + s.space;
    let lines = wrap_lines(cells, width);
    lines.lemma_flatten_and_flatten_alt_are_equivalent();
    if last.len() > 0 {
        assert(lines.drop_last() =~= s.lines);
        assert(lines.flatten_alt() =~= wrap_seen(s));
    } else if s.lines.len() > 0 {
        assert(lines.flatten_alt() =~= wrap_seen(s));
    } else {
        assert(lines.drop_last() =~= Seq::<Seq<Run>>::empty());
        assert(lines.flatten_alt() =~= Seq::<Run>::empty());
        assert(wrap_seen(s) =~= Seq::<Run>::empty());
    }
}

/// Runs as a block keeps them: none is empty, and no two neighbours share
/// a style.
pub open spec fn merged_runs(runs: Seq<Run>) -> bool {
    &&& forall|i: int| 0 <= i < runs.len() ==> (#[trigger] runs[i]).0.len() > 0
    &&& forall|i: int| 0 <= i < runs.len() - 1 ==> (#[trigger] runs[i]).1 != runs[i + 1].1
}

/// Pushing onto a block appends the text, whatever its style, and keeps the
/// runs merged: empty text adds no run and text in the style of the last run
/// extends that run.
pub proof fn law_block_push(runs: Seq<Run>, text: Seq<char>, st: Style)
    ensures
        runs_text(block_push(runs, text, st)) == runs_text(runs) + text,
        merged_runs(runs) ==> merged_runs(block_push(runs, text, st)),
{
    let r = block_push(runs, text, st);
    if text.len() == 0 {
        assert(runs_text(runs) + text =~= runs_text(runs));
    } else if runs.len() > 0 && runs.last().1 == st {
        let p = runs.drop_last();
        assert(r.drop_last() =~= p);
        assert(runs_text(r) == runs_text(p) + (runs.last().0 + text));
        assert(runs_text(runs) == runs_text(p) + runs.last().0);
        assert(runs_text(r) =~= runs_text(runs) + text);
        if merged_runs(runs) {
            assert forall|i: int| 0 <= i < r.len() - 1 implies (#[trigger] r[i]).1 != r[i + 1].1 by {
                assert(r[i] == runs[i]);
                assert(r[i + 1].1 == runs[i + 1].1);
            }
            assert forall|i: int| 0 <= i < r.len() implies (#[trigger] r[i]).0.len() > 0 by {
                if i < r.len() - 1 {
                    assert(r[i] == runs[i]);
                }
            }
        }
    } else {
        assert(r.drop_last() =~= runs);
        assert(runs_text(r) =~= runs_text(runs) + text);
        if merged_runs(runs) {
            assert forall|i: int| 0 <= i < r.len() - 1 implies (#[trigger] r[i]).1 != r[i + 1].1 by {
                assert(r[i] == runs[i]);
                if i + 1 < runs.len() {
                    assert(r[i + 1] == runs[i + 1]);
                } else {
                    assert(runs[i] == runs.last());
                }
            }
            assert forall|i: int| 0 <= i < r.len() implies (#[trigger] r[i]).0.len() > 0 by {
                if i < runs.len() {
                    assert(r[i] == runs[i]);
                }
            }
        }
    }
}

proof fn lemma_explode_text(t: Seq<char>, st: Style)
    ensures
        runs_text(explode(t, st)) == t,
    decreases t.len(),
{
    if t.len() > 0 {
        let p = t.drop_last();
        lemma_explode_text(p, st);
        assert(explode(t, st).drop_last() =~= explode(p, st));
        assert(explode(t, st).last() == char_run(t.last(), st));
        assert(p + seq![t.last()] =~= t);
    }
}

proof fn lemma_trim_width(x: Seq<Run>)
    ensures
        runs_width(trim_blanks(x)) <= runs_width(x),
    decreases x.len(),
{
    if x.len() > 0 && is_blank(x.last().0[0]) {
        lemma_trim_width(x.drop_last());
        assert(x.drop_last().push(x.last()) =~= x);
        lemma_runs_width_push(x.drop_last(), x.last());
    }
}

/// Trimming a line that starts with `a` takes at most the width of `a`
/// more than trimming the rest.
proof fn lemma_trim_prefix_width(a: Seq<Run>, b: Seq<Run>)
    ensures
        runs_width(trim_blanks(a + b)) <= runs_width(a) + runs_width(trim_blanks(b)),
    decreases b.len(),
{
    if b.len() == 0 {
        assert(a + b =~= a);
        lemma_trim_width(a);
    } else if is_blank(b.last().0[0]) {
        assert((a + b).drop_last() =~= a + b.drop_last());
        assert((a + b).last() == b.last());
        lemma_trim_prefix_width(a, b.drop_last());
    } else {
        assert((a + b).last() == b.last());
        lemma_runs_width_concat(a, b);
    }
}

/// Paragraphs and list items are flushed to fit: once the blanks that end a
/// line are set aside, the first line (with the list marker after its
/// lead) and every following line (with the list indent) is at most
/// `width` columns wide.
/// This holds when the indent and the marker leave room for text, no
/// character is wider than that room, and the text does not start with a
/// blank.
pub proof fn law_flush_fits(runs: Seq<Run>, width: nat, marker: Option<Seq<char>>, indent: nat)
    requires
        width < usize::MAX,
        indent + marker_width(marker) < width,
        forall|i: int|
            0 <= i < runs_text(runs).len() ==> char_width(#[trigger] runs_text(runs)[i]) <= text_room(
                width,
                marker,
                indent,
            ),
        runs_text(runs).len() > 0 ==> !is_blank(runs_text(runs)[0]),
    ensures
        forall|k: int|
            0 <= k < flush_lines(runs, width, marker, indent).len() ==> runs_width(
                trim_blanks(#[trigger] flush_lines(runs, width, marker, indent)[k]),
            ) <= width,
{
    if runs.len() > 0 {
        let room = text_room(width, marker, indent);
        let wl = wrap_lines(cells_of(runs), room);
        law_wrap_fits(runs, room);
        let out = flush_lines(runs, width, marker, indent);
        assert forall|k: int| 0 <= k < out.len() implies runs_width(trim_blanks(#[trigger] out[k]))
            <= width by {
            lemma_decorate_at(wl, marker, indent, k);
            assert(runs_width(trim_blanks(wl[k])) <= room);
            if k == 0 {
                match marker {
                    Some(m) => {
                        let full = spaces(marker_lead(indent)) + m;
                        lemma_trim_prefix_width(explode(full, plain_style()), wl[0]);
                        lemma_explode_text(full, plain_style());
                        crate::render::lemma_text_width_concat(spaces(marker_lead(indent)), m);
                        crate::table::lemma_spaces_width(marker_lead(indent));
                    },
                    None => {},
                }
            } else {
                let pad = seq![(spaces(indent), plain_style())];
                lemma_trim_prefix_width(pad, wl[k]);
                crate::table::lemma_spaces_width(indent);
                assert(pad.drop_last() =~= Seq::<Run>::empty());
                assert(runs_text(Seq::<Run>::empty()) == Seq::<char>::empty());
                assert(pad.last().0 == spaces(indent));
                assert(runs_text(pad) =~= spaces(indent));
            }
        }
    }
}

} // verus!
