//! Errors of the lexer and the parser, each with the source position it points at.
use vstd::prelude::*;

use crate::text::{
    byte_offset, char_len_utf8, lemma_byte_offset_full, lemma_byte_offset_mono,
    lemma_byte_offset_ge_index, lemma_byte_offset_step, str_chars, utf8_len,
};

verus! {

/// Human-readable source position (1-indexed line and column).
#[derive(Debug, Clone, Copy, PartialEq, Eq)]
pub struct Location {
    pub line: usize,
    pub column: usize,
}

/// Number of `'\n'` characters in `s`.
pub open spec fn newline_count(s: Seq<char>) -> nat
    decreases s.len(),
{
    if s.len() == 0 {
        0
    } else {
        newline_count(s.drop_last()) + if s.last() == '\n' { 1nat } else { 0nat }
    }
}

/// Index of the last `'\n'` in `s`, if there is one.
pub open spec fn last_newline(s: Seq<char>) -> Option<int>
    decreases s.len(),
{
    if s.len() == 0 {
        None
    } else if s.last() == '\n' {
        Some(s.len() - 1)
    } else {
        last_newline(s.drop_last())
    }
}

/// Whether byte offset `off` of the source `s` falls on a character boundary
/// (or at or past its end), so that the source can be cut there.
pub open spec fn is_boundary(s: Seq<char>, off: int) -> bool {
    off >= utf8_len(s) || exists|k: int| 0 <= k <= s.len() && byte_offset(s, k) == off
}

/// The location of the character at index `k` of `s`: the line is one more than the
/// number of newlines before it; the column counts bytes from the last newline before
/// it (or from the start of the source, counting from one).
pub open spec fn location_of_index(s: Seq<char>, k: int) -> Location {
    let before = s.take(k);
    Location {
        line: (newline_count(before) + 1) as usize,
        column: match last_newline(before) {
            Some(j) => (byte_offset(s, k) - byte_offset(s, j)) as usize,
            None => (byte_offset(s, k) + 1) as usize,
        },
    }
}

/// The location of byte offset `off` (capped at the end of the source).
pub open spec fn location_of_offset(s: Seq<char>, off: int) -> Location {
    let safe = if off <= utf8_len(s) { off } else { utf8_len(s) as int };
    location_of_index(s, choose|k: int| 0 <= k <= s.len() && byte_offset(s, k) == safe)
}

proof fn lemma_newline_step(s: Seq<char>, i: int)
    requires
        0 <= i < s.len(),
    ensures
        newline_count(s.take(i + 1)) == newline_count(s.take(i)) + if s[i] == '\n' {
            1nat
        } else {
            0nat
        },
        last_newline(s.take(i + 1)) == if s[i] == '\n' {
            Some(i)
        } else {
            last_newline(s.take(i))
        },
{
    assert(s.take(i + 1).drop_last() =~= s.take(i));
}

pub proof fn lemma_newline_count_bound(s: Seq<char>)
    ensures
        newline_count(s) <= s.len(),
    decreases s.len(),
{
    if s.len() > 0 {
        lemma_newline_count_bound(s.drop_last());
    }
}

pub proof fn lemma_last_newline_range(s: Seq<char>)
    ensures
        last_newline(s) matches Some(j) ==> 0 <= j < s.len() && s[j] == '\n',
    decreases s.len(),
{
    if s.len() > 0 && s.last() != '\n' {
        lemma_last_newline_range(s.drop_last());
    }
}

/// Byte offsets of successive characters strictly increase.
pub proof fn lemma_byte_offset_strict(s: Seq<char>, i: int, j: int)
    requires
        0 <= i < j <= s.len(),
    ensures
        byte_offset(s, i) < byte_offset(s, j),
{
    lemma_byte_offset_step(s, i);
    lemma_byte_offset_mono(s, i + 1, j);
}

/// At most one character index sits at a given byte offset.
pub proof fn lemma_byte_offset_injective(s: Seq<char>, i: int, j: int)
    requires
        0 <= i <= s.len(),
        0 <= j <= s.len(),
        byte_offset(s, i) == byte_offset(s, j),
    ensures
        i == j,
{
    if i < j {
        lemma_byte_offset_strict(s, i, j);
    } else if j < i {
        lemma_byte_offset_strict(s, j, i);
    }
}

/// The location of the character at index `k`, found again from its byte offset.
pub proof fn lemma_location_of_offset(s: Seq<char>, k: int)
    requires
        0 <= k <= s.len(),
    ensures
        location_of_offset(s, byte_offset(s, k) as int) == location_of_index(s, k),
{
    lemma_byte_offset_mono(s, k, s.len() as int);
    lemma_byte_offset_full(s);
    let k2 = choose|k2: int| 0 <= k2 <= s.len() && byte_offset(s, k2) == byte_offset(s, k);
    assert(0 <= k <= s.len() && byte_offset(s, k) == byte_offset(s, k));
    lemma_byte_offset_injective(s, k, k2);
}

/// Convert a byte offset within `src` to a [`Location`].
pub fn offset_to_location(src: &str, offset: usize) -> (loc: Location)
    requires
        utf8_len(src@) < usize::MAX,
        is_boundary(src@, offset as int),
    ensures
        loc == location_of_offset(src@, offset as int),
{
    let chars = str_chars(src);
    offset_to_location_in(&chars, offset)
}

/// [`offset_to_location`] over the characters of the source.
pub fn offset_to_location_in(chars: &Vec<char>, offset: usize) -> (loc: Location)
    requires
        utf8_len(chars@) < usize::MAX,
        is_boundary(chars@, offset as int),
    ensures
        loc == location_of_offset(chars@, offset as int),
{
    let ghost s = chars@;
    let mut i: usize = 0;
    let mut bpos: usize = 0;
    let mut lines: usize = 0;
    let mut last_nl: Option<usize> = None;
    proof {
        lemma_byte_offset_full(s);
        assert(s.take(0) =~= Seq::<char>::empty());
    }
    while i < chars.len() && bpos < offset
        invariant
            s == chars@,
            utf8_len(s) < usize::MAX,
            0 <= i <= s.len(),
            bpos == byte_offset(s, i as int),
            bpos <= offset,
            is_boundary(s, offset as int),
            lines <= i,
            lines == newline_count(s.take(i as int)),
            last_nl == match last_newline(s.take(i as int)) {
                Some(j) => Some(byte_offset(s, j) as usize),
                None => None::<usize>,
            },
        decreases s.len() - i,
    {
        proof {
            lemma_byte_offset_step(s, i as int);
            lemma_byte_offset_mono(s, i as int + 1, s.len() as int);
            lemma_byte_offset_full(s);
            lemma_newline_step(s, i as int);
            lemma_newline_count_bound(s.take(i as int));
            lemma_last_newline_range(s.take(i as int));
        }
        if chars[i] == '\n' {
            last_nl = Some(bpos);
            lines = lines + 1;
        }
        bpos = bpos + char_len_utf8(chars[i]);
        i = i + 1;
        if bpos > offset {
            proof {
                // `offset` would fall strictly inside the character just passed.
                lemma_byte_offset_full(s);
                lemma_byte_offset_mono(s, i as int, s.len() as int);
                let k = choose|k: int| 0 <= k <= s.len() && byte_offset(s, k) == offset;
                if k < i {
                    if k < i - 1 {
                        lemma_byte_offset_strict(s, k, i - 1);
                    }
                } else {
                    lemma_byte_offset_mono(s, i as int, k);
                }
                assert(false);
            }
        }
    }
    proof {
        lemma_byte_offset_mono(s, i as int, s.len() as int);
        lemma_byte_offset_full(s);
        lemma_location_of_offset(s, i as int);
        lemma_last_newline_range(s.take(i as int));
        if let Some(j) = last_newline(s.take(i as int)) {
            lemma_byte_offset_mono(s, j, i as int);
        }
        lemma_byte_offset_ge_index(s, i as int);
    }
    let column = match last_nl {
        Some(p) => bpos - p,
        None => bpos + 1,
    };
    Location { line: lines + 1, column }
}

/// All errors that the lexer or parser can produce.
#[derive(Debug, Clone, PartialEq)]
pub enum ParseError {
    /// A string literal was opened with `"` but never closed.
    UnterminatedString { location: Location },
    /// A character appeared where no valid token can start.
    UnexpectedChar { ch: char, location: Location },
    /// The `task` keyword was followed by something other than an identifier.
    ExpectedTaskName { location: Location },
    /// A task header was not terminated with `:`.
    ExpectedColon { location: Location },
    /// A `deps=[…]` or `args=[…]` list was not closed with `]`.
    UnclosedBracket { location: Location },
    /// A flag or key was missing its `=` sign.
    ExpectedEquals { flag: String, location: Location },
    /// A string value was expected but something else was found.
    ExpectedStringValue { flag: String, location: Location },
    /// A task body contained no commands and no description.
    EmptyTaskBody { name: String, location: Location },
    /// A `desc` line came after the first line of a task body.
    DescriptionNotFirst { name: String, location: Location },
    /// A setting key was recognised but its value was invalid.
    InvalidSettingValue { key: String, location: Location },
    /// A `{{…}}` placeholder in a command references an undeclared argument.
    UndeclaredArgument { task: String, arg: String, location: Location },
    /// Two tasks share the same name.
    DuplicateTask { name: String, location: Location },
    /// A `deps=[…]` list references a task that does not exist.
    UnknownDependency { task: String, dep: String, location: Location },
    /// Following dependency edges would form a cycle.
    DependencyCycle { cycle: String },
}

/// The mathematical view of a [`ParseError`].
pub enum ParseErrorView {
    UnterminatedString { location: Location },
    UnexpectedChar { ch: char, location: Location },
    ExpectedTaskName { location: Location },
    ExpectedColon { location: Location },
    UnclosedBracket { location: Location },
    ExpectedEquals { flag: Seq<char>, location: Location },
    ExpectedStringValue { flag: Seq<char>, location: Location },
    EmptyTaskBody { name: Seq<char>, location: Location },
    DescriptionNotFirst { name: Seq<char>, location: Location },
    InvalidSettingValue { key: Seq<char>, location: Location },
    UndeclaredArgument { task: Seq<char>, arg: Seq<char>, location: Location },
    DuplicateTask { name: Seq<char>, location: Location },
    UnknownDependency { task: Seq<char>, dep: Seq<char>, location: Location },
    DependencyCycle { cycle: Seq<char> },
}

impl View for ParseError {
    type V = ParseErrorView;

    open spec fn view(&self) -> ParseErrorView {
        match self {
            ParseError::UnterminatedString { location } => ParseErrorView::UnterminatedString {
                location: *location,
            },
            ParseError::UnexpectedChar { ch, location } => ParseErrorView::UnexpectedChar {
                ch: *ch,
                location: *location,
            },
            ParseError::ExpectedTaskName { location } => ParseErrorView::ExpectedTaskName {
                location: *location,
            },
            ParseError::ExpectedColon { location } => ParseErrorView::ExpectedColon {
                location: *location,
            },
            ParseError::UnclosedBracket { location } => ParseErrorView::UnclosedBracket {
                location: *location,
            },
            ParseError::ExpectedEquals { flag, location } => ParseErrorView::ExpectedEquals {
                flag: flag@,
                location: *location,
            },
            ParseError::ExpectedStringValue { flag, location } =>
                ParseErrorView::ExpectedStringValue { flag: flag@, location: *location },
            ParseError::EmptyTaskBody { name, location } => ParseErrorView::EmptyTaskBody {
                name: name@,
                location: *location,
            },
            ParseError::DescriptionNotFirst { name, location } =>
                ParseErrorView::DescriptionNotFirst { name: name@, location: *location },
            ParseError::InvalidSettingValue { key, location } =>
                ParseErrorView::InvalidSettingValue { key: key@, location: *location },
            ParseError::UndeclaredArgument { task, arg, location } =>
                ParseErrorView::UndeclaredArgument {
                    task: task@,
                    arg: arg@,
                    location: *location,
                },
            ParseError::DuplicateTask { name, location } => ParseErrorView::DuplicateTask {
                name: name@,
                location: *location,
            },
            ParseError::UnknownDependency { task, dep, location } =>
                ParseErrorView::UnknownDependency { task: task@, dep: dep@, location: *location },
            ParseError::DependencyCycle { cycle } => ParseErrorView::DependencyCycle {
                cycle: cycle@,
            },
        }
    }
}

} // verus!
