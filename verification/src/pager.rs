//! The pager's verifiable heart: the line buffer it displays, its error
//! type, the commands a key can mean, and the status line at the bottom of
//! the screen.

use vstd::prelude::*;

verus! {

use vstd::string::StringExecFns;
use crate::formatter::spec_dec;

/// Which way a search runs.
#[derive(Debug, Clone, Copy, PartialEq, Eq, Structural)]
pub enum SearchDirection {
    Forward,
    Backward,
}

/// Every command the pager understands.
#[derive(Debug, Clone, PartialEq, Eq, Structural)]
pub enum Action {
    Quit,
    ScrollDown,
    ScrollUp,
    PageDown,
    PageUp,
    HalfPageDown,
    HalfPageUp,
    GoToTop,
    GoToBottom,
    SearchForward,
    SearchBackward,
    NextMatch,
    PrevMatch,
    ToggleLineNumbers,
    Help,
    Resize(u16, u16),
    Noop,
}

/// The pager's modal input state: browsing, or typing a search pattern.
#[derive(Debug, Clone, PartialEq, Eq, Structural)]
pub enum Mode {
    Normal,
    SearchInput(SearchDirection),
}

/// What the pager can fail on.
#[derive(Debug)]
pub enum LessError {
    IoError(String),
    InvalidPattern(String),
    TerminalError(String),
    NoInput,
}

impl LessError {
    /// The human-readable account of the error.
    pub fn message(&self) -> (r: String)
        ensures
            self matches LessError::IoError(msg) ==> r@ == "I/O error: "@ + msg@,
            self matches LessError::InvalidPattern(p) ==> r@ == "Invalid search pattern: "@ + p@,
            self matches LessError::TerminalError(msg) ==> r@ == "Terminal error: "@ + msg@,
            self is NoInput ==> r@ == "No input: specify a file or pipe data via stdin"@,
    {
        match self {
            LessError::IoError(msg) => {
                let mut r = String::from_str("I/O error: ");
                r.append(msg.as_str());
                r
            },
            LessError::InvalidPattern(p) => {
                let mut r = String::from_str("Invalid search pattern: ");
                r.append(p.as_str());
                r
            },
            LessError::TerminalError(msg) => {
                let mut r = String::from_str("Terminal error: ");
                r.append(msg.as_str());
                r
            },
            LessError::NoInput => String::from_str(
                "No input: specify a file or pipe data via stdin",
            ),
        }
    }
}

/// Where the first line feed stands, or -1 when there is none.
pub open spec fn spec_find_nl(s: Seq<char>) -> int
    decreases s.len(),
{
    if s.len() == 0 {
        -1
    } else if s[0] == '\n' {
        0
    } else {
        let rest = spec_find_nl(s.subrange(1, s.len() as int));
        if rest < 0 {
            -1
        } else {
            rest + 1
        }
    }
}

/// A line with the carriage return of a CRLF ending taken off.
pub open spec fn spec_strip_cr(l: Seq<char>) -> Seq<char> {
    if l.len() > 0 && l[l.len() - 1] == '\r' {
        l.subrange(0, l.len() - 1)
    } else {
        l
    }
}

/// The text split into lines, as `str::lines` splits it: at each line
/// feed, with a carriage return before the line feed taken off, and with
/// no empty line for a final line feed.
pub open spec fn spec_lines(s: Seq<char>) -> Seq<Seq<char>>
    decreases s.len(),
{
    if s.len() == 0 {
        Seq::<Seq<char>>::empty()
    } else {
        let i = spec_find_nl(s);
        if 0 <= i < s.len() {
            seq![spec_strip_cr(s.subrange(0, i))] + spec_lines(s.subrange(i + 1, s.len() as int))
        } else {
            seq![s]
        }
    }
}

/// Relies on str::lines: the text split at line feeds, one string per
/// line, a CRLF ending stripped to the bare line, no empty line for a
/// final line feed.
#[verifier::external_body]
fn split_lines(content: &str) -> (r: Vec<String>)
    ensures
        r@.map_values(|l: String| l@) == spec_lines(content@),
{
    content.lines().map(String::from).collect()
}

/// The pager's content, held as one string per line, with the name of the
/// file it came from when it came from one.
#[derive(Debug)]
pub struct TextBuffer {
    lines: Vec<String>,
    filename: Option<String>,
}

impl TextBuffer {
    /// The lines held, as sequences of characters.
    pub closed spec fn spec_lines_view(self) -> Seq<Seq<char>> {
        self.lines@.map_values(|l: String| l@)
    }

    /// The display name, if one is set.
    pub closed spec fn spec_filename(self) -> Option<String> {
        self.filename
    }

    /// A buffer over an in-memory string, split as `str::lines` splits it,
    /// with no filename.
    pub fn from_string(content: &str) -> (r: TextBuffer)
        ensures
            r.spec_lines_view() == spec_lines(content@),
            r.spec_filename() is None,
    {
        let lines = split_lines(content);
        TextBuffer { lines, filename: None }
    }

    /// How many lines the buffer holds.
    pub fn line_count(&self) -> (r: usize)
        ensures
            r == self.spec_lines_view().len(),
    {
        self.lines.len()
    }

    /// Whether the buffer holds no lines at all.
    pub fn is_empty(&self) -> (r: bool)
        ensures
            r == (self.spec_lines_view().len() == 0),
    {
        self.lines.is_empty()
    }

    /// The line at a position, counted from zero; nothing when the
    /// position is past the end.
    pub fn line(&self, index: usize) -> (r: Option<&str>)
        ensures
            index < self.spec_lines_view().len() ==> (r matches Some(l) && l@
                == self.spec_lines_view()[index as int]),
            index >= self.spec_lines_view().len() ==> r is None,
    {
        if index < self.lines.len() {
            let l = &self.lines[index];
            Some(l.as_str())
        } else {
            None
        }
    }

    /// The lines from `start` up to `end`, both clamped to the buffer's
    /// length.
    pub fn lines_range(&self, start: usize, end: usize) -> (r: &[String])
        requires
            start <= end,
        ensures
            r@.map_values(|l: String| l@) == self.spec_lines_view().subrange(
                vstd::math::min(start as int, self.spec_lines_view().len() as int),
                vstd::math::min(end as int, self.spec_lines_view().len() as int),
            ),
    {
        let len = self.lines.len();
        let s = if start < len {
            start
        } else {
            len
        };
        let e = if end < len {
            end
        } else {
            len
        };
        let r: &[String] = &self.lines.as_slice()[s..e];
        proof {
            assert(r@.map_values(|l: String| l@) =~= self.spec_lines_view().subrange(
                vstd::math::min(start as int, self.spec_lines_view().len() as int),
                vstd::math::min(end as int, self.spec_lines_view().len() as int),
            ));
        }
        r
    }

    /// The display name, if one is set.
    pub fn filename(&self) -> (r: Option<&str>)
        ensures
            self.spec_filename() matches Some(n) ==> (r matches Some(l) && l@ == n@),
            self.spec_filename() is None ==> r is None,
    {
        match &self.filename {
            Some(n) => Some(n.as_str()),
            None => None,
        }
    }

    /// Gives the buffer a display name.
    pub fn set_filename(&mut self, name: String)
        ensures
            final(self).spec_filename() == Some(name),
            final(self).spec_lines_view() == old(self).spec_lines_view(),
    {
        self.filename = Some(name);
    }
}


/// How many decimal digits a number prints with.
pub open spec fn spec_digit_count(n: int) -> int {
    spec_dec(n).len() as int
}

/// A decimal spelling never has more characters than the number itself,
/// once the number is at least one.
pub proof fn lemma_dec_len_le(n: int)
    requires
        n >= 1,
    ensures
        spec_dec(n).len() <= n,
    decreases n,
{
    if n >= 10 {
        lemma_dec_len_le(n / 10);
    }
}

/// How many decimal digits a number prints with: one for zero, and one
/// more for every further power of ten reached.
pub fn digit_count(n: usize) -> (r: usize)
    ensures
        r == spec_digit_count(n as int),
{
    let mut count: usize = 1;
    let mut m: usize = n;
    while m >= 10
        invariant
            count >= 1,
            m <= n,
            spec_dec(n as int).len() == count - 1 + spec_dec(m as int).len(),
        decreases m,
    {
        proof {
            lemma_dec_len_le(n as int);
            assert(spec_dec(m as int).len() == spec_dec(m as int / 10).len() + 1);
            assert(spec_dec(m as int / 10).len() >= 1);
            assert(count + 1 <= spec_dec(n as int).len());
        }
        m = m / 10;
        count = count + 1;
    }
    count
}

/// Scroll position as a whole-number percentage of the buffer shown so
/// far: the bottom visible line over the line count.
pub open spec fn spec_percent(top_line: int, visible_lines: int, total_lines: int) -> int {
    ((top_line + visible_lines) * 100) / total_lines
}

/// What `format_percentage` returns: a marker for an empty buffer, for the
/// top, the end, or everything at once, else the percentage scrolled.
pub open spec fn spec_percentage_str(
    top_line: int,
    visible_lines: int,
    total_lines: int,
) -> Seq<char> {
    let bottom = top_line + visible_lines;
    if total_lines == 0 {
        "0%"@
    } else if top_line == 0 && bottom >= total_lines {
        "(all)"@
    } else if top_line == 0 {
        "(top)"@
    } else if bottom >= total_lines {
        "(end)"@
    } else {
        spec_dec(spec_percent(top_line, visible_lines, total_lines)) + seq!['%']
    }
}

/// Formats the scroll position: `(all)`, `(top)` or `(end)` at the edges,
/// else the percentage of the buffer above the bottom visible line.
pub fn format_percentage(top_line: usize, visible_lines: usize, total_lines: usize) -> (r: String)
    requires
        top_line + visible_lines <= usize::MAX,
    ensures
        r@ == spec_percentage_str(top_line as int, visible_lines as int, total_lines as int),
{
    if total_lines == 0 {
        return "0%".to_owned();
    }
    let bottom = top_line + visible_lines;
    if top_line == 0 && bottom >= total_lines {
        "(all)".to_owned()
    } else if top_line == 0 {
        "(top)".to_owned()
    } else if bottom >= total_lines {
        "(end)".to_owned()
    } else {
        let scaled: u128 = (bottom as u128) * 100;
        let pct128: u128 = scaled / (total_lines as u128);
        proof {
            assert(pct128 <= 100) by (nonlinear_arith)
                requires
                    pct128 == scaled / (total_lines as u128),
                    scaled == (bottom as u128) * 100,
                    0 < total_lines,
                    bottom < total_lines,
            ;
        }
        let pct: u64 = pct128 as u64;
        let mut r = crate::formatter::dec_of(pct);
        r.append("%");
        proof {
            reveal_strlit("%");
            assert(r@ =~= spec_percentage_str(
                top_line as int,
                visible_lines as int,
                total_lines as int,
            ));
        }
        r
    }
}

/// What `format_status` returns: the name (or a stdin marker), then for a
/// nonempty buffer the one-based line range over the line count and the
/// scroll position, then any live search pattern, joined with spaces.
pub open spec fn spec_format_status(
    filename: Option<&str>,
    top_line: int,
    visible_lines: int,
    total_lines: int,
    search_pattern: Option<&str>,
) -> Seq<char> {
    let name = match filename {
        Some(n) => n@,
        None => "[stdin]"@,
    };
    let middle = if total_lines == 0 {
        seq![' '] + "(empty)"@
    } else {
        let last = vstd::math::min(top_line + visible_lines, total_lines);
        seq![' '] + "lines "@ + spec_dec(top_line + 1) + seq!['-'] + spec_dec(last) + seq!['/']
            + spec_dec(total_lines) + seq![' '] + spec_percentage_str(
            top_line,
            visible_lines,
            total_lines,
        )
    };
    let tail = match search_pattern {
        Some(p) => seq![' '] + seq!['/'] + p@,
        None => Seq::<char>::empty(),
    };
    name + middle + tail
}

/// Formats the pager's status line: the buffer's name, where the view
/// stands in it, and the live search pattern if there is one.
pub fn format_status(
    filename: Option<&str>,
    top_line: usize,
    visible_lines: usize,
    total_lines: usize,
    search_pattern: Option<&str>,
) -> (r: String)
    requires
        top_line + visible_lines <= usize::MAX,
        top_line < usize::MAX,
    ensures
        r@ == spec_format_status(
            filename,
            top_line as int,
            visible_lines as int,
            total_lines as int,
            search_pattern,
        ),
{
    let mut r = match filename {
        Some(n) => n.to_owned(),
        None => "[stdin]".to_owned(),
    };
    if total_lines == 0 {
        r.append(" ");
        r.append("(empty)");
        proof {
            reveal_strlit(" ");
        }
    } else {
        let bottom = top_line + visible_lines;
        let last = if bottom < total_lines {
            bottom
        } else {
            total_lines
        };
        r.append(" ");
        r.append("lines ");
        let first_str = crate::formatter::dec_of(top_line as u64 + 1);
        r.append(first_str.as_str());
        r.append("-");
        let last_str = crate::formatter::dec_of(last as u64);
        r.append(last_str.as_str());
        r.append("/");
        let total_str = crate::formatter::dec_of(total_lines as u64);
        r.append(total_str.as_str());
        r.append(" ");
        let pct = format_percentage(top_line, visible_lines, total_lines);
        r.append(pct.as_str());
        proof {
            reveal_strlit(" ");
            reveal_strlit("-");
            reveal_strlit("/");
        }
    }
    match search_pattern {
        Some(p) => {
            r.append(" ");
            r.append("/");
            r.append(p);
            proof {
                reveal_strlit(" ");
                reveal_strlit("/");
            }
        },
        None => {},
    }
    proof {
        assert(r@ =~= spec_format_status(
            filename,
            top_line as int,
            visible_lines as int,
            total_lines as int,
            search_pattern,
        ));
    }
    r
}


} // verus!
