//! Command-line options, and the choice of colors.
use vstd::prelude::*;
use crate::text::chars_of;

verus! {

/// What the command line asks for.
pub struct CliOptions {
    /// The first argument that is not an option: a file to view, or `-`
    /// for standard input.
    pub input: Option<String>,
    /// `-b` / `--no-colors`: no ANSI colors at all.
    pub no_colors: bool,
    /// `--color`: colors even when standard output is not a terminal.
    pub force_color: bool,
    /// `-w` / `--width`: the output width in columns.
    pub width: Option<usize>,
    /// `-h` / `--help`.
    pub help: bool,
}

/// The options as values.
pub struct CliState {
    pub input: Option<Seq<char>>,
    pub no_colors: bool,
    pub force_color: bool,
    pub width: Option<usize>,
    pub help: bool,
}

impl View for CliOptions {
    type V = CliState;

    open spec fn view(&self) -> CliState {
        CliState {
            input: crate::text::opt_view(self.input),
            no_colors: self.no_colors,
            force_color: self.force_color,
            width: self.width,
            help: self.help,
        }
    }
}

/// Why a command line is refused.
pub enum ArgError {
    /// An argument that starts with `-` and is no known option.
    UnknownOption(String),
    /// `-w` or `--width` as the last argument.
    MissingWidth,
    /// The value after `-w` or `--width` is not a number of columns.
    BadWidth(String),
}

/// A refusal as values.
pub enum ArgErrorState {
    UnknownOption(Seq<char>),
    MissingWidth,
    BadWidth(Seq<char>),
}

impl View for ArgError {
    type V = ArgErrorState;

    open spec fn view(&self) -> ArgErrorState {
        match self {
            ArgError::UnknownOption(a) => ArgErrorState::UnknownOption(a@),
            ArgError::MissingWidth => ArgErrorState::MissingWidth,
            ArgError::BadWidth(a) => ArgErrorState::BadWidth(a@),
        }
    }
}

impl ArgError {
    /// The message shown for the refusal.
    pub fn message(&self) -> (m: String)
        ensures
            m@ == error_message(self@),
    {
        let mut m = String::new();
        match self {
            ArgError::UnknownOption(a) => {
                m.append("unknown option: ");
                m.append(a.as_str());
            },
            ArgError::MissingWidth => {
                m.append("missing value for --width");
            },
            ArgError::BadWidth(a) => {
                m.append("invalid width: ");
                m.append(a.as_str());
            },
        }
        m
    }
}

/// The message shown for a refusal.
pub open spec fn error_message(e: ArgErrorState) -> Seq<char> {
    match e {
        ArgErrorState::UnknownOption(a) => "unknown option: "@ + a,
        ArgErrorState::MissingWidth => "missing value for --width"@,
        ArgErrorState::BadWidth(a) => "invalid width: "@ + a,
    }
}

/// Options before any argument is read.
pub open spec fn no_options() -> CliState {
    CliState { input: None, no_colors: false, force_color: false, width: None, help: false }
}

pub open spec fn is_digit(c: char) -> bool {
    '0' <= c && c <= '9'
}

/// The number written by the decimal digits `s`.
pub open spec fn digits_value(s: Seq<char>) -> nat
    decreases s.len(),
{
    if s.len() == 0 {
        0
    } else {
        digits_value(s.drop_last()) * 10 + (s.last() as int - '0' as int) as nat
    }
}

/// The width written by `s`: one or more decimal digits whose value fits
/// in a `usize`.
pub open spec fn width_value(s: Seq<char>) -> Option<usize> {
    if s.len() > 0 && (forall|i: int| 0 <= i < s.len() ==> is_digit(#[trigger] s[i])) && digits_value(s)
        <= usize::MAX {
        Some(digits_value(s) as usize)
    } else {
        None
    }
}

/// Reading the arguments from `i` on, with `acc` read so far. Options may
/// come in any order and repeat; of the other arguments the first is the
/// input and the rest are ignored.
pub open spec fn parse_from(args: Seq<Seq<char>>, i: int, acc: CliState) -> Result<CliState, ArgErrorState>
    decreases args.len() - i,
{
    if i < 0 || i >= args.len() {
        Ok(acc)
    } else {
        let a = args[i];
        if a == "-h"@ || a == "--help"@ {
            parse_from(args, i + 1, CliState { help: true, ..acc })
        } else if a == "-b"@ || a == "--no-colors"@ {
            parse_from(args, i + 1, CliState { no_colors: true, ..acc })
        } else if a == "--color"@ {
            parse_from(args, i + 1, CliState { force_color: true, ..acc })
        } else if a == "-w"@ || a == "--width"@ {
            if i + 1 >= args.len() {
                Err(ArgErrorState::MissingWidth)
            } else {
                match width_value(args[i + 1]) {
                    Some(w) => parse_from(args, i + 2, CliState { width: Some(w), ..acc }),
                    None => Err(ArgErrorState::BadWidth(args[i + 1])),
                }
            }
        } else if a.len() > 1 && a[0] == '-' {
            Err(ArgErrorState::UnknownOption(a))
        } else if acc.input is None {
            parse_from(args, i + 1, CliState { input: Some(a), ..acc })
        } else {
            parse_from(args, i + 1, acc)
        }
    }
}

/// The arguments as values.
pub open spec fn args_view(args: Seq<String>) -> Seq<Seq<char>> {
    args.map_values(|a: String| a@)
}

/// Whether two strings hold the same characters.
fn same_text(a: &str, b: &str) -> (r: bool)
    ensures
        r == (a@ == b@),
{
    let x = chars_of(a);
    let y = chars_of(b);
    if x.len() != y.len() {
        return false;
    }
    let mut i: usize = 0;
    while i < x.len()
        invariant
            x@ == a@,
            y@ == b@,
            x@.len() == y@.len(),
            i <= x@.len(),
            forall|j: int| 0 <= j < i ==> x@[j] == y@[j],
        decreases x.len() - i,
    {
        if x[i] != y[i] {
            assert(a@[i as int] != b@[i as int]);
            return false;
        }
        i = i + 1;
    }
    assert(x@ =~= y@);
    true
}

proof fn lemma_digits_grow(s: Seq<char>, k: int)
    requires
        0 <= k <= s.len(),
        forall|i: int| 0 <= i < s.len() ==> is_digit(#[trigger] s[i]),
    ensures
        digits_value(s.take(k)) <= digits_value(s),
    decreases s.len() - k,
{
    if k < s.len() {
        lemma_digits_grow(s, k + 1);
        assert(s.take(k + 1).drop_last() =~= s.take(k));
        assert(s.take(k + 1).last() == s[k]);
    } else {
        assert(s.take(k) =~= s);
    }
}

/// Reads a width: decimal digits whose value fits in a `usize`.
pub fn parse_width(s: &str) -> (r: Option<usize>)
    ensures
        r == width_value(s@),
{
    let cs = chars_of(s);
    if cs.len() == 0 {
        return None;
    }
    let mut acc: usize = 0;
    let mut i: usize = 0;
    assert(cs@.take(0) =~= Seq::<char>::empty());
    while i < cs.len()
        invariant
            cs@ == s@,
            cs@.len() > 0,
            i <= cs@.len(),
            acc == digits_value(cs@.take(i as int)),
            forall|j: int| 0 <= j < i ==> is_digit(#[trigger] cs@[j]),
        decreases cs.len() - i,
    {
        let c = cs[i];
        if c < '0' || c > '9' {
            assert(!is_digit(cs@[i as int]));
            return None;
        }
        let d = (c as u32 - 48) as usize;
        assert(cs@.take(i + 1).drop_last() =~= cs@.take(i as int));
        assert(cs@.take(i + 1).last() == c);
        match acc.checked_mul(10) {
            Some(t) => match t.checked_add(d) {
                Some(v) => {
                    acc = v;
                },
                None => {
                    proof {
                        if forall|j: int| 0 <= j < cs@.len() ==> is_digit(#[trigger] cs@[j]) {
                            lemma_digits_grow(cs@, i + 1);
                        }
                    }
                    return None;
                },
            },
            None => {
                proof {
                    if forall|j: int| 0 <= j < cs@.len() ==> is_digit(#[trigger] cs@[j]) {
                        lemma_digits_grow(cs@, i + 1);
                    }
                }
                return None;
            },
        }
        i = i + 1;
    }
    assert(cs@.take(i as int) =~= cs@);
    Some(acc)
}

/// Reads the command line (the arguments after the program name).
pub fn parse_args(args: &Vec<String>) -> (r: Result<CliOptions, ArgError>)
    ensures
        match parse_from(args_view(args@), 0, no_options()) {
            Ok(s) => r matches Ok(o) && o@ == s,
            Err(e) => r matches Err(x) && x@ == e,
        },
{
    let ghost av = args_view(args@);
    let mut opts = CliOptions { input: None, no_colors: false, force_color: false, width: None, help: false };
    let mut i: usize = 0;
    while i < args.len()
        invariant
            av == args_view(args@),
            i <= args.len() + 1,
            parse_from(av, i as int, opts@) == parse_from(av, 0, no_options()),
        decreases args.len() + 1 - i,
    {
        let a = args[i].as_str();
        assert(av[i as int] == a@);
        if same_text(a, "-h") || same_text(a, "--help") {
            opts.help = true;
            i = i + 1;
        } else if same_text(a, "-b") || same_text(a, "--no-colors") {
            opts.no_colors = true;
            i = i + 1;
        } else if same_text(a, "--color") {
            opts.force_color = true;
            i = i + 1;
        } else if same_text(a, "-w") || same_text(a, "--width") {
            if i + 1 >= args.len() {
                return Err(ArgError::MissingWidth);
            }
            let v = args[i + 1].as_str();
            assert(av[i + 1] == v@);
            match parse_width(v) {
                Some(w) => {
                    opts.width = Some(w);
                    i = i + 2;
                },
                None => {
                    return Err(ArgError::BadWidth(args[i + 1].clone()));
                },
            }
        } else {
            let cs = chars_of(a);
            if cs.len() > 1 && cs[0] == '-' {
                return Err(ArgError::UnknownOption(args[i].clone()));
            }
            if opts.input.is_none() {
                opts.input = Some(args[i].clone());
            }
            i = i + 1;
        }
    }
    Ok(opts)
}

/// Whether output carries ANSI colors: never with `-b`; always with
/// `--color`; otherwise only on a terminal, and not when `NO_COLOR` is set.
pub open spec fn colors_wanted(o: CliState, stdout_is_terminal: bool, no_color_env: bool) -> bool {
    if o.no_colors {
        false
    } else if o.force_color {
        true
    } else {
        stdout_is_terminal && !no_color_env
    }
}

pub fn use_colors(o: &CliOptions, stdout_is_terminal: bool, no_color_env: bool) -> (b: bool)
    ensures
        b == colors_wanted(o@, stdout_is_terminal, no_color_env),
{
    if o.no_colors {
        false
    } else if o.force_color {
        true
    } else {
        stdout_is_terminal && !no_color_env
    }
}

/// Where the markdown comes from.
pub enum InputChoice {
    /// Nothing to read: show the help instead.
    Help,
    Stdin,
    File(String),
}

/// The input as a value: `None` for the help, `Some(None)` for standard
/// input, `Some(Some(path))` for a file.
pub open spec fn input_view(c: InputChoice) -> Option<Option<Seq<char>>> {
    match c {
        InputChoice::Help => None,
        InputChoice::Stdin => Some(None),
        InputChoice::File(p) => Some(Some(p@)),
    }
}

/// The input asked for: the help with `-h`, or when there is no file and
/// standard input is a terminal (nothing piped); standard input for `-` or
/// when it is piped; otherwise the file.
pub open spec fn input_wanted(o: CliState, stdin_is_terminal: bool) -> Option<Option<Seq<char>>> {
    if o.help {
        None
    } else {
        match o.input {
            Some(p) => if p == "-"@ {
                Some(None)
            } else {
                Some(Some(p))
            },
            None => if stdin_is_terminal {
                None
            } else {
                Some(None)
            },
        }
    }
}

pub fn choose_input(o: &CliOptions, stdin_is_terminal: bool) -> (c: InputChoice)
    ensures
        input_view(c) == input_wanted(o@, stdin_is_terminal),
{
    if o.help {
        return InputChoice::Help;
    }
    match &o.input {
        Some(p) => {
            if same_text(p.as_str(), "-") {
                InputChoice::Stdin
            } else {
                InputChoice::File(p.clone())
            }
        },
        None => {
            if stdin_is_terminal {
                InputChoice::Help
            } else {
                InputChoice::Stdin
            }
        },
    }
}

/// A file named on the command line, other than `-`, is the input whenever
/// the help is not asked for, whether standard input is a terminal or not:
/// any choice that meets the contract of `choose_input` is that file.
pub proof fn law_file_argument_read(o: CliState, stdin_is_terminal: bool, c: InputChoice)
    requires
        !o.help,
        o.input matches Some(p) && p != "-"@,
        input_view(c) == input_wanted(o, stdin_is_terminal),
    ensures
        c matches InputChoice::File(q) && o.input == Some(q@),
        input_wanted(o, true) == input_wanted(o, false),
{
}

/// Whether to show the document in the pager: only on a terminal, and only
/// with colors; otherwise it is printed.
pub open spec fn pages_wanted(stdout_is_terminal: bool, colors: bool) -> bool {
    stdout_is_terminal && colors
}

pub fn use_pager(stdout_is_terminal: bool, colors: bool) -> (b: bool)
    ensures
        b == pages_wanted(stdout_is_terminal, colors),
{
    stdout_is_terminal && colors
}

/// The width to print for: the `-w` value, else the terminal's width (when
/// printing to a terminal that reports a non-zero one), else the
/// `COLUMNS` variable when it holds a width, else 80 columns.
pub open spec fn width_wanted(width: Option<usize>, terminal: Option<usize>, columns: Option<Seq<char>>) -> usize {
    match width {
        Some(w) => w,
        None => match terminal {
            Some(t) if t > 0 => t,
            _ => match columns {
                Some(c) => match width_value(c) {
                    Some(w) => w,
                    None => 80,
                },
                None => 80,
            },
        },
    }
}

pub fn print_width(width: Option<usize>, terminal: Option<usize>, columns: Option<&str>) -> (w: usize)
    ensures
        w == width_wanted(
            width,
            terminal,
            match columns {
                Some(c) => Some(c@),
                None => None,
            },
        ),
{
    if let Some(w) = width {
        return w;
    }
    if let Some(t) = terminal {
        if t > 0 {
            return t;
        }
    }
    match columns {
        Some(c) => match parse_width(c) {
            Some(w) => w,
            None => 80,
        },
        None => 80,
    }
}

} // verus!
