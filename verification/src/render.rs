//! Styles, styled runs and display-width measurement.
use vstd::prelude::*;
use crate::text::{chars_of, clamp, dec_digits, decimal, digit_char, lemma_clamp_add, push_char};

verus! {

/// ANSI color names supported for styling.
#[derive(Debug, Clone, Copy, PartialEq, Eq, Structural)]
pub enum Color {
    Reset,
    Unset,
    Black,
    Red,
    Green,
    Yellow,
    Blue,
    Magenta,
    Cyan,
    White,
    BrightRed,
    BrightGreen,
    BrightYellow,
    BrightBlue,
    BrightMagenta,
    BrightCyan,
    BrightBlack,
    BrightWhite,
    Rgb(u8, u8, u8),
}

impl Default for Color {
    fn default() -> (c: Color)
        ensures
            c == Color::Reset,
    {
        Color::Reset
    }
}

/// Two-digit SGR code of a named color, as a string.
pub open spec fn two(a: char, b: char) -> Seq<char> {
    seq![a, b]
}

/// The `r;g;b` tail of a 24-bit color parameter.
pub open spec fn rgb_tail(r: u8, g: u8, b: u8) -> Seq<char> {
    dec_digits(r as nat) + seq![';'] + dec_digits(g as nat) + seq![';'] + dec_digits(b as nat)
}

/// SGR parameter that selects `c` as the foreground color.
pub open spec fn fg_code(c: Color) -> Seq<char> {
    match c {
        Color::Black => two('3', '0'),
        Color::Red => two('3', '1'),
        Color::Green => two('3', '2'),
        Color::Yellow => two('3', '3'),
        Color::Blue => two('3', '4'),
        Color::Magenta => two('3', '5'),
        Color::Cyan => two('3', '6'),
        Color::White => two('3', '7'),
        Color::BrightBlack => two('9', '0'),
        Color::BrightRed => two('9', '1'),
        Color::BrightGreen => two('9', '2'),
        Color::BrightYellow => two('9', '3'),
        Color::BrightBlue => two('9', '4'),
        Color::BrightMagenta => two('9', '5'),
        Color::BrightCyan => two('9', '6'),
        Color::BrightWhite => two('9', '7'),
        Color::Rgb(r, g, b) => seq!['3', '8', ';', '2', ';'] + rgb_tail(r, g, b),
        Color::Reset => two('3', '9'),
        Color::Unset => two('3', '9'),
    }
}

/// Palette index used for a named background color (0 for the others).
pub open spec fn bg_index(c: Color) -> u8 {
    match c {
        Color::Black => 0,
        Color::Red => 1,
        Color::Green => 2,
        Color::Yellow => 3,
        Color::Blue => 4,
        Color::Magenta => 5,
        Color::Cyan => 6,
        Color::White => 7,
        Color::BrightBlack => 8,
        Color::BrightRed => 9,
        Color::BrightGreen => 10,
        Color::BrightYellow => 11,
        Color::BrightBlue => 12,
        Color::BrightMagenta => 13,
        Color::BrightCyan => 14,
        Color::BrightWhite => 15,
        _ => 0,
    }
}

/// SGR parameter that selects `c` as the background color: `49` for the
/// terminal's default background, `40`-`47` for the eight normal colors,
/// `100`-`107` for the eight bright ones, or `48;2;r;g;b`.
pub open spec fn bg_code(c: Color) -> Seq<char> {
    match c {
        Color::Rgb(r, g, b) => seq!['4', '8', ';', '2', ';'] + rgb_tail(r, g, b),
        Color::Reset => two('4', '9'),
        Color::Unset => two('4', '9'),
        _ => if bg_index(c) < 8 {
            seq!['4'] + dec_digits(bg_index(c) as nat)
        } else {
            seq!['1', '0'] + dec_digits((bg_index(c) - 8) as nat)
        },
    }
}

/// The palette index of a background is below 16: 0 to 7 for the normal
/// colors, 8 to 15 for the bright ones, 0 for the default and 24-bit colors.
pub proof fn law_bg_index(c: Color)
    ensures
        bg_index(c) < 16,
        (c is Black || c is Red || c is Green || c is Yellow || c is Blue || c is Magenta || c is Cyan
            || c is White) ==> bg_index(c) < 8,
        (c is BrightBlack || c is BrightRed || c is BrightGreen || c is BrightYellow || c is BrightBlue
            || c is BrightMagenta || c is BrightCyan || c is BrightWhite) ==> 8 <= bg_index(c) < 16,
        (c is Reset || c is Unset || c is Rgb) ==> bg_index(c) == 0,
{
}

fn chars2(a: char, b: char) -> (s: String)
    ensures
        s@ == seq![a, b],
{
    let mut s = String::new();
    push_char(&mut s, a);
    push_char(&mut s, b);
    s
}

fn append_string(s: &mut String, t: &String)
    ensures
        final(s)@ == old(s)@ + t@,
{
    s.append(t.as_str());
}

fn rgb_param(lead: char, r: u8, g: u8, b: u8) -> (s: String)
    ensures
        s@ == seq![lead, '8', ';', '2', ';'] + rgb_tail(r, g, b),
{
    let mut s = String::new();
    push_char(&mut s, lead);
    push_char(&mut s, '8');
    push_char(&mut s, ';');
    push_char(&mut s, '2');
    push_char(&mut s, ';');
    append_string(&mut s, &decimal(r as u64));
    push_char(&mut s, ';');
    append_string(&mut s, &decimal(g as u64));
    push_char(&mut s, ';');
    append_string(&mut s, &decimal(b as u64));
    assert(s@ =~= seq![lead, '8', ';', '2', ';'] + rgb_tail(r, g, b));
    s
}

impl Color {
    fn fg_ansi(self) -> (s: String)
        ensures
            s@ == fg_code(self),
    {
        match self {
            Color::Black => chars2('3', '0'),
            Color::Red => chars2('3', '1'),
            Color::Green => chars2('3', '2'),
            Color::Yellow => chars2('3', '3'),
            Color::Blue => chars2('3', '4'),
            Color::Magenta => chars2('3', '5'),
            Color::Cyan => chars2('3', '6'),
            Color::White => chars2('3', '7'),
            Color::BrightBlack => chars2('9', '0'),
            Color::BrightRed => chars2('9', '1'),
            Color::BrightGreen => chars2('9', '2'),
            Color::BrightYellow => chars2('9', '3'),
            Color::BrightBlue => chars2('9', '4'),
            Color::BrightMagenta => chars2('9', '5'),
            Color::BrightCyan => chars2('9', '6'),
            Color::BrightWhite => chars2('9', '7'),
            Color::Rgb(r, g, b) => rgb_param('3', r, g, b),
            Color::Reset => chars2('3', '9'),
            Color::Unset => chars2('3', '9'),
        }
    }

    fn bg_ansi(self) -> (s: String)
        ensures
            s@ == bg_code(self),
    {
        match self {
            Color::Rgb(r, g, b) => rgb_param('4', r, g, b),
            Color::Reset => chars2('4', '9'),
            Color::Unset => chars2('4', '9'),
            _ => {
                let idx = to_bg_code(self);
                let mut s = String::new();
                if idx < 8 {
                    push_char(&mut s, '4');
                    append_string(&mut s, &decimal(idx as u64));
                } else {
                    push_char(&mut s, '1');
                    push_char(&mut s, '0');
                    append_string(&mut s, &decimal((idx - 8) as u64));
                }
                s
            },
        }
    }
}

pub fn to_bg_code(c: Color) -> (n: u8)
    ensures
        n == bg_index(c),
{
    match c {
        Color::Black => 0,
        Color::Red => 1,
        Color::Green => 2,
        Color::Yellow => 3,
        Color::Blue => 4,
        Color::Magenta => 5,
        Color::Cyan => 6,
        Color::White => 7,
        Color::BrightBlack => 8,
        Color::BrightRed => 9,
        Color::BrightGreen => 10,
        Color::BrightYellow => 11,
        Color::BrightBlue => 12,
        Color::BrightMagenta => 13,
        Color::BrightCyan => 14,
        Color::BrightWhite => 15,
        _ => 0,
    }
}

/// A text style: foreground, background, weight variants.
#[derive(Debug, Clone, Copy, PartialEq, Eq, Structural)]
pub struct Style {
    pub fg: Color,
    pub bg: Color,
    pub bold: bool,
    pub italic: bool,
    pub underline: bool,
    pub strikethrough: bool,
}

/// The style with default colors and no attributes.
pub open spec fn plain_style() -> Style {
    Style {
        fg: Color::Reset,
        bg: Color::Reset,
        bold: false,
        italic: false,
        underline: false,
        strikethrough: false,
    }
}

impl Default for Style {
    fn default() -> (s: Style)
        ensures
            s == plain_style(),
    {
        Style {
            fg: Color::Reset,
            bg: Color::Reset,
            bold: false,
            italic: false,
            underline: false,
            strikethrough: false,
        }
    }
}

/// SGR parameter turning an attribute on (`on`) or off (`off`).
pub open spec fn flag_code(value: bool, on: Seq<char>, off: Seq<char>) -> Seq<char> {
    if value {
        on
    } else {
        off
    }
}

/// Appends `p` to `parts` when `changed` holds.
pub open spec fn push_if(parts: Seq<Seq<char>>, changed: bool, p: Seq<char>) -> Seq<Seq<char>> {
    if changed {
        parts.push(p)
    } else {
        parts
    }
}

/// SGR parameters that switch from style `prev` to style `s`, in the order
/// foreground, background, bold, italic, underline, strikethrough.
pub open spec fn sgr_params(s: Style, prev: Style) -> Seq<Seq<char>> {
    let p0 = Seq::<Seq<char>>::empty();
    let p1 = push_if(p0, s.fg != prev.fg, fg_code(s.fg));
    let p2 = push_if(p1, s.bg != prev.bg, bg_code(s.bg));
    let p3 = push_if(p2, s.bold != prev.bold, flag_code(s.bold, seq!['1'], seq!['2', '2']));
    let p4 = push_if(p3, s.italic != prev.italic, flag_code(s.italic, seq!['3'], seq!['2', '3']));
    let p5 = push_if(
        p4,
        s.underline != prev.underline,
        flag_code(s.underline, seq!['4'], seq!['2', '4']),
    );
    push_if(
        p5,
        s.strikethrough != prev.strikethrough,
        flag_code(s.strikethrough, seq!['9'], seq!['2', '9']),
    )
}

/// The elements of `parts` separated by `sep`.
pub open spec fn join(parts: Seq<Seq<char>>, sep: char) -> Seq<char>
    decreases parts.len(),
{
    if parts.len() == 0 {
        Seq::empty()
    } else if parts.len() == 1 {
        parts[0]
    } else {
        join(parts.drop_last(), sep).push(sep) + parts.last()
    }
}

/// Escape sequence that switches the terminal from style `prev` to style `s`:
/// empty when the styles agree, else `ESC [ params m`.
pub open spec fn ansi_switch(s: Style, prev: Style) -> Seq<char> {
    if s == prev {
        Seq::empty()
    } else {
        seq!['\x1b', '['] + join(sgr_params(s, prev), ';') + seq!['m']
    }
}

fn flag_param(value: bool, on: char, off: char) -> (s: String)
    ensures
        s@ == flag_code(value, seq![on], seq!['2', off]),
{
    let mut s = String::new();
    if value {
        push_char(&mut s, on);
    } else {
        push_char(&mut s, '2');
        push_char(&mut s, off);
    }
    s
}

fn push_param(out: &mut String, count: &mut usize, p: &String, Ghost(ps): Ghost<Seq<Seq<char>>>)
    requires
        old(out)@ == join(ps, ';'),
        *old(count) == ps.len(),
        ps.len() < 6,
    ensures
        final(out)@ == join(ps.push(p@), ';'),
        *final(count) == *old(count) + 1,
{
    assert(ps.push(p@).drop_last() =~= ps);
    if *count > 0 {
        push_char(out, ';');
    }
    append_string(out, p);
    *count = *count + 1;
}

fn sgr_body(s: Style, prev: Style) -> (out: String)
    ensures
        out@ == join(sgr_params(s, prev), ';'),
{
    let mut body = String::new();
    let mut count: usize = 0;
    let ghost p0 = Seq::<Seq<char>>::empty();
    let ghost p1 = push_if(p0, s.fg != prev.fg, fg_code(s.fg));
    let ghost p2 = push_if(p1, s.bg != prev.bg, bg_code(s.bg));
    let ghost p3 = push_if(p2, s.bold != prev.bold, flag_code(s.bold, seq!['1'], seq!['2', '2']));
    let ghost p4 = push_if(p3, s.italic != prev.italic, flag_code(s.italic, seq!['3'], seq!['2', '3']));
    let ghost p5 = push_if(p4, s.underline != prev.underline, flag_code(s.underline, seq!['4'], seq!['2', '4']));
    assert(body@ =~= join(p0, ';'));
    if s.fg != prev.fg {
        push_param(&mut body, &mut count, &s.fg.fg_ansi(), Ghost(p0));
    }
    assert(body@ == join(p1, ';') && count == p1.len());
    if s.bg != prev.bg {
        push_param(&mut body, &mut count, &s.bg.bg_ansi(), Ghost(p1));
    }
    assert(body@ == join(p2, ';') && count == p2.len());
    if s.bold != prev.bold {
        push_param(&mut body, &mut count, &flag_param(s.bold, '1', '2'), Ghost(p2));
    }
    assert(body@ == join(p3, ';') && count == p3.len());
    if s.italic != prev.italic {
        push_param(&mut body, &mut count, &flag_param(s.italic, '3', '3'), Ghost(p3));
    }
    assert(body@ == join(p4, ';') && count == p4.len());
    if s.underline != prev.underline {
        push_param(&mut body, &mut count, &flag_param(s.underline, '4', '4'), Ghost(p4));
    }
    assert(body@ == join(p5, ';') && count == p5.len());
    if s.strikethrough != prev.strikethrough {
        push_param(&mut body, &mut count, &flag_param(s.strikethrough, '9', '9'), Ghost(p5));
    }
    body
}

impl Style {
    /// Escape sequence to switch from `prev` to this style (empty if unchanged).
    pub fn to_ansi(self, prev: Style) -> (s: String)
        ensures
            s@ == ansi_switch(self, prev),
            (s@.len() == 0) <==> (self == prev),
    {
        if self == prev {
            return String::new();
        }
        let body = sgr_body(self, prev);
        let mut s = String::new();
        push_char(&mut s, '\x1b');
        push_char(&mut s, '[');
        append_string(&mut s, &body);
        push_char(&mut s, 'm');
        assert(s@ =~= ansi_switch(self, prev));
        s
    }
}

} // verus!

verus! {

/// Whether the code point `r` lies in one of the wide (CJK, emoji) ranges.
pub open spec fn is_wide(r: u32) -> bool {
    ||| 0x1100 <= r <= 0x115F
    ||| 0x2E80 <= r <= 0xA4CF
    ||| 0xAC00 <= r <= 0xD7A3
    ||| 0xF900 <= r <= 0xFAFF
    ||| 0xFE30 <= r <= 0xFE4F
    ||| 0xFF00 <= r <= 0xFF60
    ||| 0xFFE0 <= r <= 0xFFE6
    ||| 0x1F300 <= r <= 0x1F64F
    ||| 0x1F680 <= r <= 0x1F6FF
    ||| 0x1F900 <= r <= 0x1F9FF
    ||| 0x20000 <= r <= 0x2FFFD
    ||| 0x30000 <= r <= 0x3FFFD
}

/// Display columns of one character: 4 for a tab, 2 for a wide character,
/// 1 otherwise.
pub open spec fn char_width(c: char) -> nat {
    if c == '\t' {
        4
    } else if is_wide(c as u32) {
        2
    } else {
        1
    }
}

/// The wide characters, block by block: every character of the Hangul
/// Jamo, CJK, Hangul syllable, compatibility, fullwidth, emoji and
/// supplementary ideograph blocks takes two columns; a tab takes four; every
/// other character, in each gap between those blocks, takes one.
pub proof fn law_char_columns(c: char)
    ensures
        c == '\t' ==> char_width(c) == 4,
        0x1100 <= c as u32 <= 0x115F ==> char_width(c) == 2,
        0x2E80 <= c as u32 <= 0xA4CF ==> char_width(c) == 2,
        0xAC00 <= c as u32 <= 0xD7A3 ==> char_width(c) == 2,
        0xF900 <= c as u32 <= 0xFAFF ==> char_width(c) == 2,
        0xFE30 <= c as u32 <= 0xFE4F ==> char_width(c) == 2,
        0xFF00 <= c as u32 <= 0xFF60 ==> char_width(c) == 2,
        0xFFE0 <= c as u32 <= 0xFFE6 ==> char_width(c) == 2,
        0x1F300 <= c as u32 <= 0x1F64F ==> char_width(c) == 2,
        0x1F680 <= c as u32 <= 0x1F6FF ==> char_width(c) == 2,
        0x1F900 <= c as u32 <= 0x1F9FF ==> char_width(c) == 2,
        0x20000 <= c as u32 <= 0x2FFFD ==> char_width(c) == 2,
        0x30000 <= c as u32 <= 0x3FFFD ==> char_width(c) == 2,
        c != '\t' && c as u32 <= 0x10FF ==> char_width(c) == 1,
        0x1160 <= c as u32 <= 0x2E7F ==> char_width(c) == 1,
        0xA4D0 <= c as u32 <= 0xABFF ==> char_width(c) == 1,
        0xD7A4 <= c as u32 <= 0xF8FF ==> char_width(c) == 1,
        0xFB00 <= c as u32 <= 0xFE2F ==> char_width(c) == 1,
        0xFE50 <= c as u32 <= 0xFEFF ==> char_width(c) == 1,
        0xFF61 <= c as u32 <= 0xFFDF ==> char_width(c) == 1,
        0xFFE7 <= c as u32 <= 0x1F2FF ==> char_width(c) == 1,
        0x1F650 <= c as u32 <= 0x1F67F ==> char_width(c) == 1,
        0x1F700 <= c as u32 <= 0x1F8FF ==> char_width(c) == 1,
        0x1FA00 <= c as u32 <= 0x1FFFF ==> char_width(c) == 1,
        0x2FFFE <= c as u32 <= 0x2FFFF ==> char_width(c) == 1,
        0x3FFFE <= c as u32 ==> char_width(c) == 1,
{
}

/// Display columns of a character sequence.
pub open spec fn text_width(s: Seq<char>) -> nat
    decreases s.len(),
{
    if s.len() == 0 {
        0
    } else {
        text_width(s.drop_last()) + char_width(s.last())
    }
}

/// The width of a concatenation is the sum of the widths.
pub proof fn lemma_text_width_concat(a: Seq<char>, b: Seq<char>)
    ensures
        text_width(a + b) == text_width(a) + text_width(b),
    decreases b.len(),
{
    if b.len() == 0 {
        assert(a + b =~= a);
    } else {
        lemma_text_width_concat(a, b.drop_last());
        assert((a + b).drop_last() =~= a + b.drop_last());
    }
}

/// A text is at least as wide as it is long, and at most four times that.
pub proof fn lemma_text_width_bounds(s: Seq<char>)
    ensures
        s.len() <= text_width(s) <= 4 * s.len(),
    decreases s.len(),
{
    if s.len() > 0 {
        lemma_text_width_bounds(s.drop_last());
    }
}

/// Display width adds up over concatenation, and lies between one and four
/// columns per character; capped at `usize::MAX` as `display_width`
/// reports it, the width of a concatenation is the capped sum.
pub proof fn law_text_width(a: Seq<char>, b: Seq<char>)
    ensures
        text_width(a + b) == text_width(a) + text_width(b),
        clamp(text_width(a + b)) == clamp(text_width(a) + text_width(b)),
        a.len() <= text_width(a) <= 4 * a.len(),
{
    lemma_text_width_concat(a, b);
    lemma_text_width_bounds(a);
}

/// Compute the display width of a string, counting wide (CJK, emoji) chars as 2.
pub fn display_width(s: &str) -> (w: usize)
    ensures
        w == clamp(text_width(s@)),
{
    let cs = chars_of(s);
    let mut w: usize = 0;
    let mut i: usize = 0;
    while i < cs.len()
        invariant
            cs@ == s@,
            i <= cs.len(),
            w == clamp(text_width(cs@.take(i as int))),
        decreases cs.len() - i,
    {
        proof {
            assert(cs@.take(i + 1).drop_last() =~= cs@.take(i as int));
            lemma_clamp_add(text_width(cs@.take(i as int)), char_width(cs@[i as int]));
        }
        w = w.saturating_add(char_w(cs[i]));
        i = i + 1;
    }
    assert(cs@.take(i as int) =~= cs@);
    w
}

/// Display columns of one character.
pub fn char_display_w(c: char) -> (w: usize)
    ensures
        w == char_width(c),
{
    char_w(c)
}

fn char_w(c: char) -> (w: usize)
    ensures
        w == char_width(c),
{
    if c == '\t' {
        4
    } else {
        unicode_width(c)
    }
}

pub fn unicode_width(c: char) -> (w: usize)
    ensures
        w == (if is_wide(c as u32) { 2usize } else { 1usize }),
{
    let r = c as u32;
    if (0x1100 <= r && r <= 0x115F) || (0x2E80 <= r && r <= 0xA4CF) || (0xAC00 <= r && r
        <= 0xD7A3) || (0xF900 <= r && r <= 0xFAFF) || (0xFE30 <= r && r <= 0xFE4F) || (0xFF00
        <= r && r <= 0xFF60) || (0xFFE0 <= r && r <= 0xFFE6) || (0x1F300 <= r && r <= 0x1F64F)
        || (0x1F680 <= r && r <= 0x1F6FF) || (0x1F900 <= r && r <= 0x1F9FF) || (0x20000 <= r
        && r <= 0x2FFFD) || (0x30000 <= r && r <= 0x3FFFD) {
        2
    } else {
        1
    }
}

/// A run of text with a single style.
#[derive(Debug, Clone)]
pub struct Styled {
    pub text: String,
    pub style: Style,
}

impl PartialEq for Styled {
    fn eq(&self, other: &Styled) -> (r: bool) {
        self.text == other.text && self.style == other.style
    }
}

impl vstd::std_specs::cmp::PartialEqSpecImpl for Styled {
    open spec fn obeys_eq_spec() -> bool {
        true
    }

    open spec fn eq_spec(&self, other: &Styled) -> bool {
        self.text@ == other.text@ && self.style == other.style
    }
}

/// A styled run as values: its characters and its style.
pub type Run = (Seq<char>, Style);

impl View for Styled {
    type V = Run;

    open spec fn view(&self) -> Run {
        (self.text@, self.style)
    }
}

impl Styled {
    pub fn new(text: &str, style: Style) -> (r: Styled)
        ensures
            r@ == (text@, style),
    {
        Styled { text: String::from_str(text), style }
    }

    /// A copy of this run.
    pub fn duplicate(&self) -> (r: Styled)
        ensures
            r@ == self@,
    {
        Styled { text: self.text.clone(), style: self.style }
    }
}

/// One display line: a list of styled runs.
#[derive(Debug, Clone)]
pub struct Line {
    pub runs: Vec<Styled>,
}

/// The runs of a line as values.
pub open spec fn runs_view(runs: Seq<Styled>) -> Seq<Run> {
    runs.map_values(|r: Styled| r@)
}

impl View for Line {
    type V = Seq<Run>;

    open spec fn view(&self) -> Seq<Run> {
        runs_view(self.runs@)
    }
}

/// All characters of a list of runs, in order.
pub open spec fn runs_text(runs: Seq<Run>) -> Seq<char>
    decreases runs.len(),
{
    if runs.len() == 0 {
        Seq::empty()
    } else {
        runs_text(runs.drop_last()) + runs.last().0
    }
}

/// Display width of a list of runs.
pub open spec fn runs_width(runs: Seq<Run>) -> nat {
    text_width(runs_text(runs))
}

} // verus!

verus! {

/// The text of a concatenation of run lists is the concatenation of texts.
pub proof fn lemma_runs_text_concat(a: Seq<Run>, b: Seq<Run>)
    ensures
        runs_text(a + b) == runs_text(a) + runs_text(b),
    decreases b.len(),
{
    if b.len() == 0 {
        assert(a + b =~= a);
        assert(runs_text(a) + runs_text(b) =~= runs_text(a));
    } else {
        lemma_runs_text_concat(a, b.drop_last());
        assert((a + b).drop_last() =~= a + b.drop_last());
        assert(runs_text(a + b) =~= runs_text(a) + runs_text(b));
    }
}

/// The width of a concatenation of run lists is the sum of the widths.
pub proof fn lemma_runs_width_concat(a: Seq<Run>, b: Seq<Run>)
    ensures
        runs_width(a + b) == runs_width(a) + runs_width(b),
{
    lemma_runs_text_concat(a, b);
    lemma_text_width_concat(runs_text(a), runs_text(b));
}

/// Views of the lines of a list, in order.
pub open spec fn lines_view(lines: Seq<Line>) -> Seq<Seq<Run>> {
    lines.map_values(|l: Line| l@)
}

} // verus!

verus! {

/// How a color looks on the terminal: `Unset` shows the default color, as
/// `Reset` does.
pub open spec fn shown(c: Color) -> Color {
    if c is Unset {
        Color::Reset
    } else {
        c
    }
}

/// Whether two styles look the same on the terminal.
pub open spec fn looks_same(a: Style, b: Style) -> bool {
    &&& shown(a.fg) == shown(b.fg)
    &&& shown(a.bg) == shown(b.bg)
    &&& a.bold == b.bold
    &&& a.italic == b.italic
    &&& a.underline == b.underline
    &&& a.strikethrough == b.strikethrough
}

/// The normal color numbered by digit `d` (`0` black to `7` white).
pub open spec fn normal_color(d: char) -> Color {
    if d == '0' {
        Color::Black
    } else if d == '1' {
        Color::Red
    } else if d == '2' {
        Color::Green
    } else if d == '3' {
        Color::Yellow
    } else if d == '4' {
        Color::Blue
    } else if d == '5' {
        Color::Magenta
    } else if d == '6' {
        Color::Cyan
    } else {
        Color::White
    }
}

/// The bright color numbered by digit `d` (`0` bright black to `7` bright
/// white).
pub open spec fn bright_color(d: char) -> Color {
    if d == '0' {
        Color::BrightBlack
    } else if d == '1' {
        Color::BrightRed
    } else if d == '2' {
        Color::BrightGreen
    } else if d == '3' {
        Color::BrightYellow
    } else if d == '4' {
        Color::BrightBlue
    } else if d == '5' {
        Color::BrightMagenta
    } else if d == '6' {
        Color::BrightCyan
    } else {
        Color::BrightWhite
    }
}

/// Whether `d` is one of the digits `0` to `7`.
pub open spec fn octal(d: char) -> bool {
    '0' <= d && d <= '7'
}

/// Whether `p` is a 24-bit color parameter `L8;2;r;g;b` with lead digit
/// `lead`.
pub open spec fn is_rgb_param(lead: char, p: Seq<char>) -> bool {
    exists|r: u8, g: u8, b: u8| p == seq![lead, '8', ';', '2', ';'] + rgb_tail(r, g, b)
}

/// The color that a 24-bit color parameter names.
pub open spec fn rgb_value(lead: char, p: Seq<char>) -> Color {
    let (r, g, b) = choose|r: u8, g: u8, b: u8| p == seq![lead, '8', ';', '2', ';'] + rgb_tail(r, g, b);
    Color::Rgb(r, g, b)
}

proof fn lemma_rgb_value(lead: char, p: Seq<char>)
    requires
        is_rgb_param(lead, p),
    ensures
        rgb_value(lead, p) is Rgb,
        p == seq![lead, '8', ';', '2', ';'] + rgb_tail(
            rgb_value(lead, p)->0,
            rgb_value(lead, p)->1,
            rgb_value(lead, p)->2,
        ),
{
    let (r, g, b) = choose|r: u8, g: u8, b: u8| p == seq![lead, '8', ';', '2', ';'] + rgb_tail(r, g, b);
    assert(p == seq![lead, '8', ';', '2', ';'] + rgb_tail(r, g, b));
}

/// What one SGR parameter does to the terminal's style, by the standard
/// codes: `1`/`22` bold on/off, `3`/`23` italic, `4`/`24` underline,
/// `9`/`29` strikethrough; `30`-`37` and `90`-`97` foreground colors, `39`
/// the default foreground, `38;2;r;g;b` a 24-bit foreground; `40`-`47` and
/// `100`-`107` background colors, `49` the default background, `48;2;r;g;b`
/// a 24-bit background. Anything else changes nothing.
#[verifier::opaque]
pub open spec fn sgr_effect(t: Style, p: Seq<char>) -> Style {
    if p == seq!['1'] {
        Style { bold: true, ..t }
    } else if p == seq!['2', '2'] {
        Style { bold: false, ..t }
    } else if p == seq!['3'] {
        Style { italic: true, ..t }
    } else if p == seq!['2', '3'] {
        Style { italic: false, ..t }
    } else if p == seq!['4'] {
        Style { underline: true, ..t }
    } else if p == seq!['2', '4'] {
        Style { underline: false, ..t }
    } else if p == seq!['9'] {
        Style { strikethrough: true, ..t }
    } else if p == seq!['2', '9'] {
        Style { strikethrough: false, ..t }
    } else if p.len() == 2 && p[0] == '3' && octal(p[1]) {
        Style { fg: normal_color(p[1]), ..t }
    } else if p == seq!['3', '9'] {
        Style { fg: Color::Reset, ..t }
    } else if p.len() == 2 && p[0] == '9' && octal(p[1]) {
        Style { fg: bright_color(p[1]), ..t }
    } else if p.len() == 2 && p[0] == '4' && octal(p[1]) {
        Style { bg: normal_color(p[1]), ..t }
    } else if p == seq!['4', '9'] {
        Style { bg: Color::Reset, ..t }
    } else if p.len() == 3 && p[0] == '1' && p[1] == '0' && octal(p[2]) {
        Style { bg: bright_color(p[2]), ..t }
    } else if is_rgb_param('3', p) {
        Style { fg: rgb_value('3', p), ..t }
    } else if is_rgb_param('4', p) {
        Style { bg: rgb_value('4', p), ..t }
    } else {
        t
    }
}

/// The terminal's style after the SGR parameters `ps`, in order.
pub open spec fn apply_sgr(t: Style, ps: Seq<Seq<char>>) -> Style
    decreases ps.len(),
{
    if ps.len() == 0 {
        t
    } else {
        sgr_effect(apply_sgr(t, ps.drop_last()), ps.last())
    }
}

proof fn lemma_digits_of(n: nat)
    ensures
        dec_digits(n).len() >= 1,
        forall|i: int| 0 <= i < dec_digits(n).len() ==> '0' <= #[trigger] dec_digits(n)[i] <= '9',
        crate::cli::digits_value(dec_digits(n)) == n,
    decreases n,
{
    let d = dec_digits(n);
    if n < 10 {
        assert(d.drop_last() =~= Seq::<char>::empty());
        assert(d.last() == digit_char(n));
        assert(crate::cli::digits_value(Seq::<char>::empty()) == 0);
        assert(digit_char(n) as int == 48 + n);
    } else {
        lemma_digits_of(n / 10);
        assert(d.drop_last() =~= dec_digits(n / 10));
        assert(d.last() == digit_char(n % 10));
        assert(digit_char(n % 10) as int == 48 + n % 10);
        assert(n == (n / 10) * 10 + n % 10);
        assert forall|i: int| 0 <= i < d.len() implies '0' <= #[trigger] d[i] <= '9' by {
            if i < d.len() - 1 {
                assert(d[i] == dec_digits(n / 10)[i]);
            }
        }
    }
}

/// Two lists joined by a `;` that neither holds come apart again.
proof fn lemma_split_semicolon(x1: Seq<char>, y1: Seq<char>, x2: Seq<char>, y2: Seq<char>)
    requires
        x1 + seq![';'] + y1 == x2 + seq![';'] + y2,
        forall|i: int| 0 <= i < x1.len() ==> #[trigger] x1[i] != ';',
        forall|i: int| 0 <= i < x2.len() ==> #[trigger] x2[i] != ';',
    ensures
        x1 == x2,
        y1 == y2,
{
    let a = x1 + seq![';'] + y1;
    let b = x2 + seq![';'] + y2;
    if x1.len() < x2.len() {
        assert(a[x1.len() as int] == ';');
        assert(b[x1.len() as int] == x2[x1.len() as int]);
    } else if x2.len() < x1.len() {
        assert(b[x2.len() as int] == ';');
        assert(a[x2.len() as int] == x1[x2.len() as int]);
    }
    assert(x1 =~= a.take(x1.len() as int));
    assert(x2 =~= b.take(x2.len() as int));
    assert(y1 =~= a.skip(x1.len() as int + 1));
    assert(y2 =~= b.skip(x2.len() as int + 1));
}

proof fn lemma_dec_no_semicolon(n: nat)
    ensures
        forall|i: int| 0 <= i < dec_digits(n).len() ==> #[trigger] dec_digits(n)[i] != ';',
{
    lemma_digits_of(n);
}

/// A 24-bit color's parameter tail names its three components.
proof fn lemma_rgb_tail_inj(r1: u8, g1: u8, b1: u8, r2: u8, g2: u8, b2: u8)
    requires
        rgb_tail(r1, g1, b1) == rgb_tail(r2, g2, b2),
    ensures
        r1 == r2 && g1 == g2 && b1 == b2,
{
    lemma_dec_no_semicolon(r1 as nat);
    lemma_dec_no_semicolon(r2 as nat);
    lemma_dec_no_semicolon(g1 as nat);
    lemma_dec_no_semicolon(g2 as nat);
    lemma_digits_of(r1 as nat);
    lemma_digits_of(r2 as nat);
    lemma_digits_of(g1 as nat);
    lemma_digits_of(g2 as nat);
    lemma_digits_of(b1 as nat);
    lemma_digits_of(b2 as nat);
    let t1 = dec_digits(g1 as nat) + seq![';'] + dec_digits(b1 as nat);
    let t2 = dec_digits(g2 as nat) + seq![';'] + dec_digits(b2 as nat);
    assert(rgb_tail(r1, g1, b1) =~= dec_digits(r1 as nat) + seq![';'] + t1);
    assert(rgb_tail(r2, g2, b2) =~= dec_digits(r2 as nat) + seq![';'] + t2);
    lemma_split_semicolon(dec_digits(r1 as nat), t1, dec_digits(r2 as nat), t2);
    lemma_split_semicolon(dec_digits(g1 as nat), dec_digits(b1 as nat), dec_digits(g2 as nat), dec_digits(b2 as nat));
}

/// Foreground parameters are at least two characters long and begin with
/// `3` or `9`; background parameters begin with `4` or `1`.
proof fn lemma_code_shapes(c: Color)
    ensures
        fg_code(c).len() >= 2,
        fg_code(c)[0] == '3' || fg_code(c)[0] == '9',
        bg_code(c).len() >= 2,
        bg_code(c)[0] == '4' || bg_code(c)[0] == '1',
        (c is Rgb) == (fg_code(c).len() > 2),
        (c is Rgb) == (bg_code(c).len() > 3),
        bg_code(c).len() == 3 ==> bg_code(c)[0] == '1',
        bg_code(c).len() == 2 ==> bg_code(c)[0] == '4',
{
    match c {
        Color::Rgb(r, g, b) => {
            lemma_digits_of(r as nat);
            lemma_digits_of(g as nat);
            lemma_digits_of(b as nat);
        },
        _ => {
            lemma_digits_of(bg_index(c) as nat);
            if bg_index(c) >= 8 {
                lemma_digits_of((bg_index(c) - 8) as nat);
            }
        },
    }
}

/// A foreground parameter selects its color.
proof fn lemma_fg_effect(t: Style, c: Color)
    ensures
        sgr_effect(t, fg_code(c)) == (Style { fg: sgr_effect(t, fg_code(c)).fg, ..t }),
        shown(sgr_effect(t, fg_code(c)).fg) == shown(c),
{
    reveal(sgr_effect);
    lemma_code_shapes(c);
    lemma_attr_codes();
    let p = fg_code(c);
    match c {
        Color::Rgb(r, g, b) => {
            assert(p == seq!['3', '8', ';', '2', ';'] + rgb_tail(r, g, b));
            assert(p.len() > 3);
            assert(is_rgb_param('3', p));
            lemma_rgb_value('3', p);
            let v = rgb_value('3', p);
            let r2 = v->0;
            let g2 = v->1;
            let b2 = v->2;
            assert(p == seq!['3', '8', ';', '2', ';'] + rgb_tail(r2, g2, b2));
            assert(rgb_tail(r, g, b) =~= p.skip(5));
            assert(rgb_tail(r2, g2, b2) =~= p.skip(5));
            lemma_rgb_tail_inj(r, g, b, r2, g2, b2);
        },
        _ => {
            assert(p.len() == 2);
        },
    }
}

/// A background parameter selects its color.
proof fn lemma_bg_effect(t: Style, c: Color)
    ensures
        sgr_effect(t, bg_code(c)) == (Style { bg: sgr_effect(t, bg_code(c)).bg, ..t }),
        shown(sgr_effect(t, bg_code(c)).bg) == shown(c),
{
    reveal(sgr_effect);
    lemma_code_shapes(c);
    lemma_attr_codes();
    let p = bg_code(c);
    match c {
        Color::Rgb(r, g, b) => {
            assert(p == seq!['4', '8', ';', '2', ';'] + rgb_tail(r, g, b));
            assert(p.len() > 3);
            assert forall|r1: u8, g1: u8, b1: u8| p != seq!['3', '8', ';', '2', ';'] + rgb_tail(r1, g1, b1) by {
                assert((seq!['3', '8', ';', '2', ';'] + rgb_tail(r1, g1, b1))[0] == '3');
            }
            assert(is_rgb_param('4', p));
            assert(!is_rgb_param('3', p));
            lemma_rgb_value('4', p);
            let v = rgb_value('4', p);
            let r2 = v->0;
            let g2 = v->1;
            let b2 = v->2;
            assert(p == seq!['4', '8', ';', '2', ';'] + rgb_tail(r2, g2, b2));
            assert(rgb_tail(r, g, b) =~= p.skip(5));
            assert(rgb_tail(r2, g2, b2) =~= p.skip(5));
            lemma_rgb_tail_inj(r, g, b, r2, g2, b2);
        },
        _ => {
            lemma_digits_of(bg_index(c) as nat);
            if bg_index(c) >= 8 {
                lemma_digits_of((bg_index(c) - 8) as nat);
            }
        },
    }
}

/// The attribute codes switch their attribute on or off.
proof fn lemma_flag_effects(t: Style)
    ensures
        sgr_effect(t, seq!['1']) == (Style { bold: true, ..t }),
        sgr_effect(t, seq!['2', '2']) == (Style { bold: false, ..t }),
        sgr_effect(t, seq!['3']) == (Style { italic: true, ..t }),
        sgr_effect(t, seq!['2', '3']) == (Style { italic: false, ..t }),
        sgr_effect(t, seq!['4']) == (Style { underline: true, ..t }),
        sgr_effect(t, seq!['2', '4']) == (Style { underline: false, ..t }),
        sgr_effect(t, seq!['9']) == (Style { strikethrough: true, ..t }),
        sgr_effect(t, seq!['2', '9']) == (Style { strikethrough: false, ..t }),
{
    reveal(sgr_effect);
    lemma_attr_codes();
}

/// The attribute codes differ from one another.
proof fn lemma_attr_codes()
    ensures
        seq!['3'] != seq!['1'],
        seq!['4'] != seq!['1'],
        seq!['4'] != seq!['3'],
        seq!['9'] != seq!['1'],
        seq!['9'] != seq!['3'],
        seq!['9'] != seq!['4'],
        seq!['2', '3'] != seq!['2', '2'],
        seq!['2', '4'] != seq!['2', '2'],
        seq!['2', '4'] != seq!['2', '3'],
        seq!['2', '9'] != seq!['2', '2'],
        seq!['2', '9'] != seq!['2', '3'],
        seq!['2', '9'] != seq!['2', '4'],
        seq!['2', '3'] != seq!['1'],
        seq!['2', '4'] != seq!['1'],
        seq!['2', '9'] != seq!['1'],
        seq!['2', '4'] != seq!['3'],
        seq!['2', '9'] != seq!['3'],
        seq!['2', '9'] != seq!['4'],
        seq!['3'] != seq!['2', '2'],
        seq!['4'] != seq!['2', '2'],
        seq!['4'] != seq!['2', '3'],
        seq!['9'] != seq!['2', '2'],
        seq!['9'] != seq!['2', '3'],
        seq!['9'] != seq!['2', '4'],
{
    assert(seq!['3'][0] != seq!['1'][0]);
    assert(seq!['4'][0] != seq!['1'][0]);
    assert(seq!['4'][0] != seq!['3'][0]);
    assert(seq!['9'][0] != seq!['1'][0]);
    assert(seq!['9'][0] != seq!['3'][0]);
    assert(seq!['9'][0] != seq!['4'][0]);
    assert(seq!['2', '3'][1] != seq!['2', '2'][1]);
    assert(seq!['2', '4'][1] != seq!['2', '2'][1]);
    assert(seq!['2', '4'][1] != seq!['2', '3'][1]);
    assert(seq!['2', '9'][1] != seq!['2', '2'][1]);
    assert(seq!['2', '9'][1] != seq!['2', '3'][1]);
    assert(seq!['2', '9'][1] != seq!['2', '4'][1]);
}

/// The escape sequence of `to_ansi` switches the terminal to the style:
/// applying its parameters, in order, to a terminal showing `prev` leaves
/// it showing `s` (where `Unset` and `Reset` both show the default color).
pub proof fn law_to_ansi_switches(s: Style, prev: Style)
    ensures
        looks_same(apply_sgr(prev, sgr_params(s, prev)), s),
{
    lemma_code_shapes(s.fg);
    lemma_code_shapes(s.bg);
    let p0 = Seq::<Seq<char>>::empty();
    let p1 = push_if(p0, s.fg != prev.fg, fg_code(s.fg));
    let p2 = push_if(p1, s.bg != prev.bg, bg_code(s.bg));
    let p3 = push_if(p2, s.bold != prev.bold, flag_code(s.bold, seq!['1'], seq!['2', '2']));
    let p4 = push_if(p3, s.italic != prev.italic, flag_code(s.italic, seq!['3'], seq!['2', '3']));
    let p5 = push_if(p4, s.underline != prev.underline, flag_code(s.underline, seq!['4'], seq!['2', '4']));
    let p6 = push_if(
        p5,
        s.strikethrough != prev.strikethrough,
        flag_code(s.strikethrough, seq!['9'], seq!['2', '9']),
    );
    assert(p6 == sgr_params(s, prev));
    let t1 = apply_sgr(prev, p1);
    if s.fg != prev.fg {
        assert(p1.drop_last() =~= p0);
        assert(apply_sgr(prev, p0) == prev);
        assert(t1 == sgr_effect(prev, fg_code(s.fg)));
        lemma_fg_effect(prev, s.fg);
    } else {
        assert(p1 == p0);
        assert(t1 == prev);
    }
    assert(shown(t1.fg) == shown(s.fg));
    assert(t1.bg == prev.bg && t1.bold == prev.bold && t1.italic == prev.italic);
    assert(t1.underline == prev.underline && t1.strikethrough == prev.strikethrough);
    let t2 = apply_sgr(prev, p2);
    if s.bg != prev.bg {
        assert(p2.drop_last() =~= p1);
        assert(t2 == sgr_effect(t1, bg_code(s.bg)));
        lemma_bg_effect(t1, s.bg);
    } else {
        assert(p2 == p1);
    }
    assert(shown(t2.fg) == shown(s.fg) && shown(t2.bg) == shown(s.bg));
    assert(t2.bold == prev.bold && t2.italic == prev.italic);
    assert(t2.underline == prev.underline && t2.strikethrough == prev.strikethrough);
    let t3 = apply_sgr(prev, p3);
    lemma_flag_effects(t2);
    if s.bold != prev.bold {
        assert(p3.drop_last() =~= p2);
    }
    assert(shown(t3.fg) == shown(s.fg) && shown(t3.bg) == shown(s.bg) && t3.bold == s.bold);
    assert(t3.italic == prev.italic && t3.underline == prev.underline);
    assert(t3.strikethrough == prev.strikethrough);
    let t4 = apply_sgr(prev, p4);
    lemma_flag_effects(t3);
    if s.italic != prev.italic {
        assert(p4.drop_last() =~= p3);
    }
    assert(shown(t4.fg) == shown(s.fg) && shown(t4.bg) == shown(s.bg) && t4.bold == s.bold);
    assert(t4.italic == s.italic && t4.underline == prev.underline);
    assert(t4.strikethrough == prev.strikethrough);
    let t5 = apply_sgr(prev, p5);
    lemma_flag_effects(t4);
    if s.underline != prev.underline {
        assert(p5.drop_last() =~= p4);
    }
    assert(shown(t5.fg) == shown(s.fg) && shown(t5.bg) == shown(s.bg) && t5.bold == s.bold);
    assert(t5.italic == s.italic && t5.underline == s.underline);
    assert(t5.strikethrough == prev.strikethrough);
    let t6 = apply_sgr(prev, p6);
    lemma_flag_effects(t5);
    if s.strikethrough != prev.strikethrough {
        assert(p6.drop_last() =~= p5);
    }
    assert(looks_same(t6, s));
}

} // verus!
