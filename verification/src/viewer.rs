//! The pager: scrolling, searching and the reaction to key and mouse input.
use vstd::prelude::*;
use crate::cmark::cmark_events;
use crate::parse::{render_lines, render_markdown, Document, MARKDOWN_OPTIONS};
use crate::render::Run;
use crate::search::{line_matches, line_matches_spec};
use crate::text::opt_view;

verus! {

/// A line-editing prompt shown in the status line.
pub struct Prompt {
    pub label: String,
    pub buf: String,
}

impl Prompt {
    /// The query submitted when Enter is pressed: the text typed so far.
    pub fn submit(&self) -> (q: Option<String>)
        ensures
            q matches Some(s) && s@ == self.buf@,
    {
        Some(self.buf.clone())
    }
}

/// The prompt as values: its label and the text typed so far.
pub struct PromptState {
    pub label: Seq<char>,
    pub buf: Seq<char>,
}

/// The viewer as values.
pub struct ViewerState {
    pub source: Seq<char>,
    pub path: Option<Seq<char>>,
    pub lines: Seq<Seq<Run>>,
    pub width: nat,
    pub rows: nat,
    pub scroll: nat,
    pub search: Option<Seq<char>>,
    pub prompt: Option<PromptState>,
}

/// A document being viewed.
pub struct Viewer {
    pub source: String,
    pub path: Option<String>,
    pub doc: Document,
    /// Width the document was laid out for.
    pub width: usize,
    /// Height of the terminal, status line included.
    pub rows: usize,
    /// Index of the first line shown.
    pub scroll: usize,
    pub search: Option<String>,
    pub prompt: Option<Prompt>,
}

pub open spec fn prompt_view(p: Option<Prompt>) -> Option<PromptState> {
    match p {
        Some(p) => Some(PromptState { label: p.label@, buf: p.buf@ }),
        None => None,
    }
}

impl View for Viewer {
    type V = ViewerState;

    open spec fn view(&self) -> ViewerState {
        ViewerState {
            source: self.source@,
            path: opt_view(self.path),
            lines: self.doc@,
            width: self.width as nat,
            rows: self.rows as nat,
            scroll: self.scroll as nat,
            search: opt_view(self.search),
            prompt: prompt_view(self.prompt),
        }
    }
}

/// The largest first line that still fills a `view_h`-line view.
pub open spec fn max_scroll(total: nat, view_h: nat) -> nat {
    if total > view_h {
        (total - view_h) as nat
    } else {
        0
    }
}

/// `scroll`, kept within `max_scroll`.
pub open spec fn clamp_scroll(scroll: int, total: nat, view_h: nat) -> nat {
    let m = max_scroll(total, view_h);
    if scroll < 0 {
        0
    } else if scroll > m {
        m
    } else {
        scroll as nat
    }
}

/// The state with the first line moved to `scroll`, within bounds.
pub open spec fn scrolled_to(s: ViewerState, scroll: int, view_h: nat) -> ViewerState {
    ViewerState { scroll: clamp_scroll(scroll, s.lines.len(), view_h), ..s }
}

/// The position after `i` when stepping by `step` through `n` lines: past
/// the last line comes the first, before the first comes the last.
pub open spec fn step_pos(i: int, step: int, n: int) -> int {
    let j = i + step;
    if j < 0 {
        n - 1
    } else if j >= n {
        0
    } else {
        j
    }
}

/// The first matching line among the `k` positions after `i`.
pub open spec fn find_from(lines: Seq<Seq<Run>>, q: Option<Seq<char>>, i: int, step: int, k: nat) -> Option<
    nat,
>
    decreases k,
{
    if k == 0 {
        None
    } else {
        let j = step_pos(i, step, lines.len() as int);
        if line_matches_spec(lines[j], q) {
            Some(j as nat)
        } else {
            find_from(lines, q, j, step, (k - 1) as nat)
        }
    }
}

/// The next line after `from`, stepping by `step` with wrap-around, that
/// matches the query; each line is visited at most once.
pub open spec fn find_next_spec(lines: Seq<Seq<Run>>, q: Option<Seq<char>>, from: int, step: int) -> Option<
    nat,
> {
    if lines.len() == 0 {
        None
    } else {
        find_from(lines, q, from, step, lines.len())
    }
}

pub proof fn lemma_step_pos(i: int, step: int, n: int)
    requires
        n > 0,
    ensures
        0 <= step_pos(i, step, n) < n,
{
}

/// A found line exists.
pub proof fn lemma_find_from_bound(lines: Seq<Seq<Run>>, q: Option<Seq<char>>, i: int, step: int, k: nat)
    requires
        lines.len() > 0,
    ensures
        find_from(lines, q, i, step, k) matches Some(j) ==> j < lines.len(),
    decreases k,
{
    if k > 0 {
        lemma_step_pos(i, step, lines.len() as int);
        lemma_find_from_bound(lines, q, step_pos(i, step, lines.len() as int), step, (k - 1) as nat);
    }
}

/// Text of an optional string, as a string slice.
fn opt_str(s: &Option<String>) -> (r: Option<&str>)
    ensures
        match r {
            Some(x) => opt_view(*s) == Some(x@),
            None => opt_view(*s) is None,
        },
{
    match s {
        Some(x) => Some(x.as_str()),
        None => None,
    }
}

impl Viewer {
    /// A viewer of `source` laid out for a `width`-column, `rows`-line
    /// terminal, showing its first line.
    pub fn new(source: String, path: Option<String>, width: usize, rows: usize) -> (v: Viewer)
        ensures
            v@ == (ViewerState {
                source: source@,
                path: opt_view(path),
                lines: render_lines(cmark_events(source@, MARKDOWN_OPTIONS), width as nat),
                width: width as nat,
                rows: rows as nat,
                scroll: 0,
                search: None,
                prompt: None,
            }),
    {
        let doc = render_markdown(source.as_str(), width);
        Viewer { source, path, doc, width, rows, scroll: 0, search: None, prompt: None }
    }

    pub fn clamp(&mut self, view_h: usize)
        ensures
            final(self)@ == scrolled_to(old(self)@, old(self)@.scroll as int, view_h as nat),
    {
        let max = self.doc.lines.len().saturating_sub(view_h);
        if self.scroll > max {
            self.scroll = max;
        }
    }

    pub fn go(&mut self, scroll: usize, view_h: usize)
        ensures
            final(self)@ == scrolled_to(old(self)@, scroll as int, view_h as nat),
    {
        self.scroll = scroll;
        self.clamp(view_h);
    }

    pub fn scroll_by(&mut self, delta: i64, view_h: usize)
        ensures
            final(self)@ == scrolled_to(old(self)@, old(self)@.scroll + delta, view_h as nat),
    {
        self.move_by(delta as i128, view_h);
    }

    fn move_by(&mut self, delta: i128, view_h: usize)
        requires
            -0x1_0000_0000_0000_0000 <= delta <= 0x1_0000_0000_0000_0000,
        ensures
            final(self)@ == scrolled_to(old(self)@, old(self)@.scroll + delta, view_h as nat),
    {
        let s: i128 = self.scroll as i128 + delta;
        let max = self.doc.lines.len().saturating_sub(view_h);
        self.scroll = if s < 0 {
            0
        } else if s > max as i128 {
            max
        } else {
            s as usize
        };
    }

    /// Lays the source out again for `width` columns.
    pub fn reload(&mut self, width: usize, view_h: usize)
        ensures
            final(self)@ == scrolled_to(
                ViewerState {
                    lines: render_lines(cmark_events(old(self)@.source, MARKDOWN_OPTIONS), width as nat),
                    width: width as nat,
                    ..old(self)@
                },
                old(self)@.scroll as int,
                view_h as nat,
            ),
    {
        self.doc = render_markdown(self.source.as_str(), width);
        self.width = width;
        self.clamp(view_h);
    }

    /// The next line after `from`, stepping by `step` with wrap-around,
    /// that matches the search.
    pub fn find_next(&self, from: usize, step: i64) -> (r: Option<usize>)
        ensures
            match find_next_spec(self@.lines, self@.search, from as int, step as int) {
                Some(j) => r == Some(j as usize),
                None => r is None,
            },
    {
        let n = self.doc.lines.len();
        if n == 0 {
            return None;
        }
        let q = opt_str(&self.search);
        let ghost lines = self@.lines;
        let mut i: i128 = from as i128;
        let mut k: usize = n;
        while k > 0
            invariant
                n == lines.len(),
                lines == self@.lines,
                n > 0,
                k <= n,
                i >= 0 || k == n,
                -0x1_0000_0000_0000_0000 < i < 0x1_0000_0000_0000_0000,
                match q {
                    Some(x) => self@.search == Some(x@),
                    None => self@.search is None,
                },
                find_from(lines, self@.search, i as int, step as int, k as nat) == find_from(
                    lines,
                    self@.search,
                    from as int,
                    step as int,
                    n as nat,
                ),
            decreases k,
        {
            proof {
                lemma_step_pos(i as int, step as int, n as int);
            }
            let j0: i128 = i + step as i128;
            let j: i128 = if j0 < 0 {
                n as i128 - 1
            } else if j0 >= n as i128 {
                0
            } else {
                j0
            };
            assert(j == step_pos(i as int, step as int, n as int));
            let ju = j as usize;
            assert(self.doc@[ju as int] == self.doc.lines@[ju as int]@);
            if line_matches(&self.doc.lines[ju], q) {
                return Some(ju);
            }
            i = j;
            k = k - 1;
        }
        None
    }
}

/// A key, as the viewer distinguishes them.
#[derive(Debug, Clone, Copy, PartialEq, Eq, Structural)]
pub enum Key {
    Char(char),
    Backspace,
    Esc,
    Enter,
    Up,
    Down,
    PageUp,
    PageDown,
    Home,
    End,
    Other,
}

/// What the terminal reports.
#[derive(Debug, Clone, Copy, PartialEq, Eq, Structural)]
pub enum Input {
    /// A key press (or repeat), and whether Control was held.
    Key(Key, bool),
    ScrollUp,
    ScrollDown,
    /// The terminal now has this many columns and rows.
    Resize(usize, usize),
    Other,
}

/// What the caller does next.
#[derive(Debug, Clone, Copy, PartialEq, Eq, Structural)]
pub enum Action {
    Continue,
    Quit,
    /// Read the file again and hand it to `reload_source`.
    Reload,
}

/// Lines available to the document above the status line.
pub open spec fn view_height(rows: nat) -> nat {
    if rows > 0 {
        (rows - 1) as nat
    } else {
        0
    }
}

/// Submitting a query: an empty one clears the search, any other becomes
/// the search and the view moves to its first match (or the top).
pub open spec fn submit_search(s: ViewerState, q: Seq<char>, view_h: nat) -> ViewerState {
    if q.len() == 0 {
        ViewerState { search: None, ..s }
    } else {
        let s1 = ViewerState { search: Some(q), ..s };
        let target = match find_next_spec(s1.lines, Some(q), 0, 1) {
            Some(j) => j,
            None => 0,
        };
        scrolled_to(s1, target as int, view_h)
    }
}

/// A key typed while the prompt is open.
pub open spec fn prompt_key(s: ViewerState, p: PromptState, key: Key, view_h: nat) -> ViewerState {
    match key {
        Key::Char(c) => ViewerState {
            prompt: Some(PromptState { label: p.label, buf: p.buf.push(c) }),
            ..s
        },
        Key::Backspace => ViewerState {
            prompt: Some(
                PromptState {
                    label: p.label,
                    buf: if p.buf.len() > 0 {
                        p.buf.drop_last()
                    } else {
                        p.buf
                    },
                },
            ),
            ..s
        },
        Key::Esc => ViewerState { prompt: None, ..s },
        Key::Enter => submit_search(ViewerState { prompt: None, ..s }, p.buf, view_h),
        _ => s,
    }
}

/// Moves to the next (`step` 1) or previous (`step` -1) matching line, or
/// stays.
pub open spec fn jump_match(s: ViewerState, step: int, view_h: nat) -> ViewerState {
    let target = match find_next_spec(s.lines, s.search, s.scroll as int, step) {
        Some(j) => j,
        None => s.scroll,
    };
    scrolled_to(s, target as int, view_h)
}

/// The prompt opened by `/`.
pub open spec fn search_prompt() -> PromptState {
    PromptState { label: "Search: "@, buf: Seq::empty() }
}

/// A key pressed while no prompt is open.
pub open spec fn plain_key(s: ViewerState, key: Key, ctrl: bool, view_h: nat) -> (ViewerState, Action) {
    let page = view_h as int;
    match key {
        Key::Esc => (s, Action::Quit),
        Key::Down => (scrolled_to(s, s.scroll as int + 1, view_h), Action::Continue),
        Key::Up => (scrolled_to(s, s.scroll - 1, view_h), Action::Continue),
        Key::PageDown => (scrolled_to(s, s.scroll as int + page, view_h), Action::Continue),
        Key::PageUp => (scrolled_to(s, s.scroll - page, view_h), Action::Continue),
        Key::Home => (scrolled_to(s, 0, view_h), Action::Continue),
        Key::End => (scrolled_to(s, usize::MAX as int, view_h), Action::Continue),
        Key::Char(c) => if c == 'q' || (c == 'c' && ctrl) {
            (s, Action::Quit)
        } else if c == 'j' {
            (scrolled_to(s, s.scroll as int + 1, view_h), Action::Continue)
        } else if c == 'k' {
            (scrolled_to(s, s.scroll - 1, view_h), Action::Continue)
        } else if c == ' ' || c == 'f' || c == 'd' {
            (scrolled_to(s, s.scroll as int + page, view_h), Action::Continue)
        } else if c == 'b' || c == 'u' {
            (scrolled_to(s, s.scroll - page, view_h), Action::Continue)
        } else if c == 'g' {
            (scrolled_to(s, 0, view_h), Action::Continue)
        } else if c == 'G' {
            (scrolled_to(s, usize::MAX as int, view_h), Action::Continue)
        } else if c == '/' {
            (ViewerState { prompt: Some(search_prompt()), ..s }, Action::Continue)
        } else if c == 'n' {
            (jump_match(s, 1, view_h), Action::Continue)
        } else if c == 'N' {
            (jump_match(s, -1, view_h), Action::Continue)
        } else if c == 'r' && s.path is Some {
            (s, Action::Reload)
        } else {
            (s, Action::Continue)
        },
        _ => (s, Action::Continue),
    }
}

/// How the viewer reacts to an input: the new state and what the caller
/// does next.
pub open spec fn handle_input(s: ViewerState, input: Input) -> (ViewerState, Action) {
    let view_h = view_height(s.rows);
    match input {
        Input::Key(key, ctrl) => match s.prompt {
            Some(p) => (prompt_key(s, p, key, view_h), Action::Continue),
            None => plain_key(s, key, ctrl, view_h),
        },
        Input::ScrollUp => (scrolled_to(s, s.scroll - 3, view_h), Action::Continue),
        Input::ScrollDown => (scrolled_to(s, s.scroll as int + 3, view_h), Action::Continue),
        Input::Resize(w, h) => (
            scrolled_to(
                ViewerState {
                    lines: render_lines(cmark_events(s.source, MARKDOWN_OPTIONS), w as nat),
                    width: w as nat,
                    rows: h as nat,
                    ..s
                },
                s.scroll as int,
                view_height(h as nat),
            ),
            Action::Continue,
        ),
        Input::Other => (s, Action::Continue),
    }
}

/// Removes the last character of a string, if any.
#[verifier::external_body]
fn pop_char(s: &mut String)
    ensures
        final(s)@ == (if old(s)@.len() > 0 {
            old(s)@.drop_last()
        } else {
            old(s)@
        }),
{
    s.pop();
}

impl Viewer {
    /// Replaces the source (read again from its file) and lays it out for
    /// the current width.
    pub fn reload_source(&mut self, source: String)
        ensures
            final(self)@ == scrolled_to(
                ViewerState {
                    source: source@,
                    lines: render_lines(cmark_events(source@, MARKDOWN_OPTIONS), old(self)@.width),
                    ..old(self)@
                },
                old(self)@.scroll as int,
                view_height(old(self)@.rows),
            ),
    {
        self.source = source;
        let view_h = self.rows.saturating_sub(1);
        let width = self.width;
        self.reload(width, view_h);
    }

    fn jump(&mut self, step: i64, view_h: usize)
        ensures
            final(self)@ == jump_match(old(self)@, step as int, view_h as nat),
    {
        let n = self.doc.lines.len();
        assert(self@.lines.len() == n);
        proof {
            if self@.lines.len() > 0 {
                lemma_find_from_bound(self@.lines, self@.search, self.scroll as int, step as int, self@.lines.len());
            }
        }
        let target = match self.find_next(self.scroll, step) {
            Some(j) => j,
            None => self.scroll,
        };
        self.go(target, view_h);
    }

    fn prompt_input(&mut self, key: Key, view_h: usize)
        requires
            old(self).prompt is Some,
        ensures
            final(self)@ == prompt_key(old(self)@, old(self)@.prompt->0, key, view_h as nat),
    {
        let mut p = match self.prompt.take() {
            Some(p) => p,
            None => {
                return;
            },
        };
        match key {
            Key::Char(c) => {
                crate::text::push_char(&mut p.buf, c);
                self.prompt = Some(p);
            },
            Key::Backspace => {
                pop_char(&mut p.buf);
                self.prompt = Some(p);
            },
            Key::Esc => {},
            Key::Enter => {
                let result = p.submit();
                match result {
                    Some(q) => {
                        if q.as_str().is_empty() {
                            self.search = None;
                        } else {
                            self.search = Some(q);
                            let n = self.doc.lines.len();
                            assert(self@.lines.len() == n);
                            proof {
                                if self@.lines.len() > 0 {
                                    lemma_find_from_bound(self@.lines, self@.search, 0, 1, self@.lines.len());
                                }
                            }
                            let target = match self.find_next(0, 1) {
                                Some(j) => j,
                                None => 0,
                            };
                            self.go(target, view_h);
                        }
                    },
                    None => {},
                }
            },
            _ => {
                self.prompt = Some(p);
            },
        }
    }

    fn key_input(&mut self, key: Key, ctrl: bool, view_h: usize) -> (a: Action)
        requires
            old(self).prompt is None,
        ensures
            (final(self)@, a) == plain_key(old(self)@, key, ctrl, view_h as nat),
    {
        let page = view_h as i128;
        match key {
            Key::Esc => Action::Quit,
            Key::Down => {
                self.move_by(1, view_h);
                Action::Continue
            },
            Key::Up => {
                self.move_by(-1, view_h);
                Action::Continue
            },
            Key::PageDown => {
                self.move_by(page, view_h);
                Action::Continue
            },
            Key::PageUp => {
                self.move_by(-page, view_h);
                Action::Continue
            },
            Key::Home => {
                self.go(0, view_h);
                Action::Continue
            },
            Key::End => {
                self.go(usize::MAX, view_h);
                Action::Continue
            },
            Key::Char(c) => {
                if c == 'q' || (c == 'c' && ctrl) {
                    Action::Quit
                } else if c == 'j' {
                    self.move_by(1, view_h);
                    Action::Continue
                } else if c == 'k' {
                    self.move_by(-1, view_h);
                    Action::Continue
                } else if c == ' ' || c == 'f' || c == 'd' {
                    self.move_by(page, view_h);
                    Action::Continue
                } else if c == 'b' || c == 'u' {
                    self.move_by(-page, view_h);
                    Action::Continue
                } else if c == 'g' {
                    self.go(0, view_h);
                    Action::Continue
                } else if c == 'G' {
                    self.go(usize::MAX, view_h);
                    Action::Continue
                } else if c == '/' {
                    let label = String::from_str("Search: ");
                    self.prompt = Some(Prompt { label, buf: String::new() });
                    Action::Continue
                } else if c == 'n' {
                    self.jump(1, view_h);
                    Action::Continue
                } else if c == 'N' {
                    self.jump(-1, view_h);
                    Action::Continue
                } else if c == 'r' && self.path.is_some() {
                    Action::Reload
                } else {
                    Action::Continue
                }
            },
            _ => Action::Continue,
        }
    }

    /// Reacts to an input; see `handle_input`.
    pub fn handle(&mut self, input: Input) -> (a: Action)
        ensures
            (final(self)@, a) == handle_input(old(self)@, input),
    {
        let view_h = self.rows.saturating_sub(1);
        match input {
            Input::Key(key, ctrl) => {
                if self.prompt.is_some() {
                    self.prompt_input(key, view_h);
                    Action::Continue
                } else {
                    self.key_input(key, ctrl, view_h)
                }
            },
            Input::ScrollUp => {
                self.scroll_by(-3, view_h);
                Action::Continue
            },
            Input::ScrollDown => {
                self.scroll_by(3, view_h);
                Action::Continue
            },
            Input::Resize(w, h) => {
                self.width = w;
                self.rows = h;
                self.reload(w, h.saturating_sub(1));
                Action::Continue
            },
            Input::Other => Action::Continue,
        }
    }
}

/// The terminal size to lay out for, from the size the terminal reports:
/// a zero dimension, or no report at all, falls back to 80 columns and
/// 24 rows.
pub fn screen_size(size: Option<(u16, u16)>) -> (r: (usize, usize))
    ensures
        r == (match size {
            Some((w, h)) => (
                if w == 0 {
                    80usize
                } else {
                    w as usize
                },
                if h == 0 {
                    24usize
                } else {
                    h as usize
                },
            ),
            None => (80usize, 24usize),
        }),
{
    match size {
        Some((w, h)) => {
            let w = if w == 0 {
                80
            } else {
                w
            };
            let h = if h == 0 {
                24
            } else {
                h
            };
            (w as usize, h as usize)
        },
        None => (80, 24),
    }
}

} // verus!

verus! {

/// Scrolling never leaves the document: when the first shown line is
/// within bounds, it is still within bounds, for the document and the
/// terminal size it then has, after any input.
pub proof fn law_scroll_in_bounds(s: ViewerState, input: Input)
    requires
        s.scroll <= max_scroll(s.lines.len(), view_height(s.rows)),
    ensures
        handle_input(s, input).0.scroll <= max_scroll(
            handle_input(s, input).0.lines.len(),
            view_height(handle_input(s, input).0.rows),
        ),
{
}

/// How many steps of `step` (1 or -1) lead from line `from` to line `j`
/// among `n` lines, wrapping around; from a line to itself it takes `n`.
pub open spec fn steps_to(from: int, j: int, step: int, n: int) -> int {
    if step == 1 {
        if j > from {
            j - from
        } else {
            j - from + n
        }
    } else {
        if j < from {
            from - j
        } else {
            from - j + n
        }
    }
}

proof fn lemma_steps_to(i: int, j: int, step: int, n: int)
    requires
        0 <= i < n,
        0 <= j < n,
        step == 1 || step == -1,
    ensures
        1 <= steps_to(i, j, step, n) <= n,
        j == step_pos(i, step, n) ==> steps_to(i, j, step, n) == 1,
        j != step_pos(i, step, n) ==> steps_to(i, j, step, n) == steps_to(step_pos(i, step, n), j, step, n)
            + 1,
{
}

proof fn lemma_find_from(lines: Seq<Seq<Run>>, q: Option<Seq<char>>, i: int, step: int, k: nat)
    requires
        0 <= i < lines.len(),
        step == 1 || step == -1,
    ensures
        match find_from(lines, q, i, step, k) {
            Some(j) => {
                &&& j < lines.len()
                &&& line_matches_spec(lines[j as int], q)
                &&& steps_to(i, j as int, step, lines.len() as int) <= k
                &&& forall|m: int|
                    0 <= m < lines.len() && steps_to(i, m, step, lines.len() as int) < steps_to(
                        i,
                        j as int,
                        step,
                        lines.len() as int,
                    ) ==> !line_matches_spec(#[trigger] lines[m], q)
            },
            None => forall|m: int|
                0 <= m < lines.len() && steps_to(i, m, step, lines.len() as int) <= k
                    ==> !line_matches_spec(#[trigger] lines[m], q),
        },
    decreases k,
{
    let n = lines.len() as int;
    if k > 0 {
        let i2 = step_pos(i, step, n);
        lemma_step_pos(i, step, n);
        lemma_find_from(lines, q, i2, step, (k - 1) as nat);
        assert forall|m: int| 0 <= m < n implies 1 <= #[trigger] steps_to(i, m, step, n) <= n && (m
            != i2 ==> steps_to(i, m, step, n) == steps_to(i2, m, step, n) + 1) by {
            lemma_steps_to(i, m, step, n);
        }
        lemma_steps_to(i, i2, step, n);
        match find_from(lines, q, i, step, k) {
            Some(j) => {
                if !line_matches_spec(lines[i2], q) {
                    assert(j != i2);
                }
            },
            None => {},
        }
    } else {
        assert forall|m: int| 0 <= m < n implies 1 <= #[trigger] steps_to(i, m, step, n) by {
            lemma_steps_to(i, m, step, n);
        }
    }
}

/// Searching onward (`n`, step 1) or backward (`N`, step -1) from a line
/// finds the nearest matching line in that direction, wrapping around past
/// either end, the starting line itself coming last; it finds nothing only
/// when no line matches.
pub proof fn law_find_next(lines: Seq<Seq<Run>>, q: Option<Seq<char>>, from: int, step: int)
    requires
        0 <= from < lines.len(),
        step == 1 || step == -1,
    ensures
        match find_next_spec(lines, q, from, step) {
            Some(j) => {
                &&& j < lines.len()
                &&& line_matches_spec(lines[j as int], q)
                &&& forall|m: int|
                    0 <= m < lines.len() && steps_to(from, m, step, lines.len() as int) < steps_to(
                        from,
                        j as int,
                        step,
                        lines.len() as int,
                    ) ==> !line_matches_spec(#[trigger] lines[m], q)
            },
            None => forall|m: int| 0 <= m < lines.len() ==> !line_matches_spec(#[trigger] lines[m], q),
        },
{
    lemma_find_from(lines, q, from, step, lines.len());
    assert forall|m: int| 0 <= m < lines.len() implies #[trigger] steps_to(from, m, step, lines.len() as int)
        <= lines.len() by {
        lemma_steps_to(from, m, step, lines.len() as int);
    }
}

/// In the search prompt, Backspace takes back the character just typed:
/// the viewer is as it was before.
pub proof fn law_backspace_undoes_typing(s: ViewerState, c: char, ctrl: bool, ctrl2: bool)
    requires
        s.prompt is Some,
    ensures
        handle_input(handle_input(s, Input::Key(Key::Char(c), ctrl)).0, Input::Key(Key::Backspace, ctrl2)).0
            == s,
{
    let p = s.prompt->0;
    assert(p.buf.push(c).drop_last() =~= p.buf);
}

/// The lines shown are always the layout of the source for the current
/// width: every input keeps this so.
pub proof fn law_layout_current(s: ViewerState, input: Input)
    requires
        s.lines == render_lines(cmark_events(s.source, MARKDOWN_OPTIONS), s.width),
    ensures
        handle_input(s, input).0.lines == render_lines(
            cmark_events(handle_input(s, input).0.source, MARKDOWN_OPTIONS),
            handle_input(s, input).0.width,
        ),
{
}

/// The line `d` steps of `step` after line `from`, going round `n` lines.
pub open spec fn round_pos(from: int, d: int, step: int, n: int) -> int {
    (from + d * step) % n
}

proof fn lemma_round_pos(from: int, d: int, step: int, n: int)
    requires
        0 <= from < n,
        1 <= d <= n,
        step == 1 || step == -1,
    ensures
        0 <= round_pos(from, d, step, n) < n,
        steps_to(from, round_pos(from, d, step, n), step, n) == d,
{
    let x = from + d * step;
    if step == 1 {
        assert(d * step == d) by (nonlinear_arith)
            requires
                step == 1,
        ;
    } else {
        assert(d * step == -d) by (nonlinear_arith)
            requires
                step == -1,
        ;
    }
    if 0 <= x < n {
        vstd::arithmetic::div_mod::lemma_small_mod(x as nat, n as nat);
    } else if x >= n {
        vstd::arithmetic::div_mod::lemma_mod_multiples_vanish(1, x - n, n);
        vstd::arithmetic::div_mod::lemma_small_mod((x - n) as nat, n as nat);
        assert(n * 1 + (x - n) == x);
    } else {
        vstd::arithmetic::div_mod::lemma_mod_multiples_vanish(-1, x + n, n);
        vstd::arithmetic::div_mod::lemma_small_mod((x + n) as nat, n as nat);
        assert(n * -1 + (x + n) == x);
    }
}

/// Searching with `n` or `N` goes round the lines from `from`: it finds
/// line `(from + D * step) mod n` for the least `D` from 1 to the number of
/// lines at which a line matches (the starting line itself is tried last),
/// and nothing when no line matches.
pub proof fn law_find_next_round(lines: Seq<Seq<Run>>, q: Option<Seq<char>>, from: int, step: int)
    requires
        0 <= from < lines.len(),
        step == 1 || step == -1,
    ensures
        match find_next_spec(lines, q, from, step) {
            Some(j) => exists|dd: int|
                1 <= dd <= lines.len() && j == #[trigger] round_pos(from, dd, step, lines.len() as int) && (
                forall|d: int|
                    1 <= d < dd ==> !line_matches_spec(
                        lines[#[trigger] round_pos(from, d, step, lines.len() as int)],
                        q,
                    )),
            None => forall|m: int| 0 <= m < lines.len() ==> !line_matches_spec(#[trigger] lines[m], q),
        },
{
    let n = lines.len() as int;
    law_find_next(lines, q, from, step);
    match find_next_spec(lines, q, from, step) {
        Some(j) => {
            let dd = steps_to(from, j as int, step, n);
            lemma_steps_to(from, j as int, step, n);
            lemma_round_pos(from, dd, step, n);
            let m0 = round_pos(from, dd, step, n);
            lemma_steps_to(from, m0, step, n);
            assert(m0 == j as int);
            assert forall|d: int| 1 <= d < dd implies !line_matches_spec(
                lines[#[trigger] round_pos(from, d, step, n)],
                q,
            ) by {
                lemma_round_pos(from, d, step, n);
            }
        },
        None => {},
    }
}

} // verus!
