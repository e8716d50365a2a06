//! Lexer for Mossfile source text.
//!
//! Converts the source into a flat sequence of [`Token`]s that the parser consumes.
//! The lexer builds no tree and does not track indentation depth; that is left to the
//! parser.
//!
//! ```text
//! task build deps=[lint] parallel:   <- Task, Ident, Deps, Equals, LBracket, Ident,
//!                                       RBracket, Parallel, Colon, Newline
//!   cargo build --release            <- Indent, Ident("cargo build …"), Newline
//! ```
use vstd::prelude::*;

use crate::ast::Span;
use crate::error::{is_boundary, lemma_location_of_offset, location_of_index, offset_to_location_in, ParseError, ParseErrorView};
use crate::text::{
    byte_offset, char_is_alphabetic, char_is_alphanumeric, char_is_whitespace, char_len_utf8,
    is_white_space, lemma_byte_offset_full, lemma_byte_offset_ge_index, lemma_byte_offset_mono, lemma_byte_offset_step,
    str_chars, str_eq, string_from_chars, is_letter, is_letter_or_digit, utf8_len,
};

verus! {

// ── Tokens ───────────────────────────────────────────────────────────────────

/// A single lexical unit with its position in the source.
#[derive(Debug, Clone, PartialEq)]
pub struct Token {
    pub kind: TokenKind,
    pub span: Span,
}

/// All token kinds produced by the lexer.
#[derive(Debug, Clone, PartialEq)]
pub enum TokenKind {
    /// The `task` keyword that starts a task declaration.
    Task,
    /// The `parallel` flag on a task header.
    Parallel,
    /// The `watch` flag (its value follows `=`).
    Watch,
    /// The `ready` flag (its value follows `=`).
    Ready,
    /// The `deps` flag (its value follows `=[…]`).
    Deps,
    /// The `args` flag (its value follows `=[…]`).
    Args,
    /// The `desc` key inside a task body.
    Desc,
    /// The `project` setting key.
    Project,
    /// The `shell` setting key.
    Shell,
    /// `:`, which ends a task header.
    Colon,
    /// `=`, between a key and its value.
    Equals,
    /// `[`, which opens a list.
    LBracket,
    /// `]`, which closes a list.
    RBracket,
    /// `,`, between list items.
    Comma,
    /// A bare identifier (task, dependency or argument name), or the text of a command.
    Ident(String),
    /// A quoted string literal, without its quotes.
    StringLit(String),
    /// Leading whitespace of a body line: the number of spaces and tabs.
    Indent(usize),
    /// A logical newline.
    Newline,
    /// End of input.
    Eof,
}

/// The mathematical view of a [`TokenKind`].
pub enum TokenKindView {
    Task,
    Parallel,
    Watch,
    Ready,
    Deps,
    Args,
    Desc,
    Project,
    Shell,
    Colon,
    Equals,
    LBracket,
    RBracket,
    Comma,
    Ident(Seq<char>),
    StringLit(Seq<char>),
    Indent(usize),
    Newline,
    Eof,
}

/// The mathematical view of a [`Token`].
pub struct TokenView {
    pub kind: TokenKindView,
    pub span: Span,
}

impl View for TokenKind {
    type V = TokenKindView;

    open spec fn view(&self) -> TokenKindView {
        match self {
            TokenKind::Task => TokenKindView::Task,
            TokenKind::Parallel => TokenKindView::Parallel,
            TokenKind::Watch => TokenKindView::Watch,
            TokenKind::Ready => TokenKindView::Ready,
            TokenKind::Deps => TokenKindView::Deps,
            TokenKind::Args => TokenKindView::Args,
            TokenKind::Desc => TokenKindView::Desc,
            TokenKind::Project => TokenKindView::Project,
            TokenKind::Shell => TokenKindView::Shell,
            TokenKind::Colon => TokenKindView::Colon,
            TokenKind::Equals => TokenKindView::Equals,
            TokenKind::LBracket => TokenKindView::LBracket,
            TokenKind::RBracket => TokenKindView::RBracket,
            TokenKind::Comma => TokenKindView::Comma,
            TokenKind::Ident(s) => TokenKindView::Ident(s@),
            TokenKind::StringLit(s) => TokenKindView::StringLit(s@),
            TokenKind::Indent(n) => TokenKindView::Indent(*n),
            TokenKind::Newline => TokenKindView::Newline,
            TokenKind::Eof => TokenKindView::Eof,
        }
    }
}

impl View for Token {
    type V = TokenView;

    open spec fn view(&self) -> TokenView {
        TokenView { kind: self.kind@, span: self.span }
    }
}

pub open spec fn tokens_view(ts: Seq<Token>) -> Seq<TokenView> {
    ts.map_values(|t: Token| t@)
}

// ── The token language, as functions on the source characters ─────────────────

/// The character at `i`, or `'\0'` past the end.
pub open spec fn char_at(s: Seq<char>, i: int) -> char {
    if 0 <= i < s.len() {
        s[i]
    } else {
        '\0'
    }
}

pub open spec fn is_blank(c: char) -> bool {
    c == ' ' || c == '\t'
}

/// A character that may continue an identifier.
pub open spec fn is_ident_char(c: char) -> bool {
    is_letter_or_digit(c) || c == '_' || c == '-' || c == '.'
}

/// The end of the run of blanks that starts at `i`.
pub open spec fn blank_run_end(s: Seq<char>, i: int) -> int
    decreases s.len() - i,
{
    if 0 <= i < s.len() && is_blank(s[i]) {
        blank_run_end(s, i + 1)
    } else {
        i
    }
}

/// The end of the run of identifier characters that starts at `i`.
pub open spec fn ident_end(s: Seq<char>, i: int) -> int
    decreases s.len() - i,
{
    if 0 <= i < s.len() && is_ident_char(s[i]) {
        ident_end(s, i + 1)
    } else {
        i
    }
}

/// The position of the first `'\n'` at or after `i` (or the end of the source).
pub open spec fn line_end(s: Seq<char>, i: int) -> int
    decreases s.len() - i,
{
    if 0 <= i < s.len() && s[i] != '\n' {
        line_end(s, i + 1)
    } else {
        i
    }
}

/// The position just past the `'\n'` that ends the line containing `i`.
pub open spec fn skip_line(s: Seq<char>, i: int) -> int {
    let j = line_end(s, i);
    if j < s.len() {
        j + 1
    } else {
        j
    }
}

/// The position of the first `'\n'` or `'#'` at or after `i` (or the end of the source).
pub open spec fn command_end(s: Seq<char>, i: int) -> int
    decreases s.len() - i,
{
    if 0 <= i < s.len() && s[i] != '\n' && s[i] != '#' {
        command_end(s, i + 1)
    } else {
        i
    }
}

/// `s` without its trailing whitespace.
pub open spec fn trim_end(s: Seq<char>) -> Seq<char>
    decreases s.len(),
{
    if s.len() > 0 && is_white_space(s.last()) {
        trim_end(s.drop_last())
    } else {
        s
    }
}

/// A token covering characters `i..j`.
pub open spec fn token_at(s: Seq<char>, kind: TokenKindView, i: int, j: int) -> TokenView {
    TokenView {
        kind,
        span: Span { start: byte_offset(s, i) as usize, end: byte_offset(s, j) as usize },
    }
}

/// The keyword that `w` spells, or an identifier.
pub open spec fn keyword_kind(w: Seq<char>) -> TokenKindView {
    if w == seq!['t', 'a', 's', 'k'] {
        TokenKindView::Task
    } else if w == seq!['p', 'a', 'r', 'a', 'l', 'l', 'e', 'l'] {
        TokenKindView::Parallel
    } else if w == seq!['w', 'a', 't', 'c', 'h'] {
        TokenKindView::Watch
    } else if w == seq!['r', 'e', 'a', 'd', 'y'] {
        TokenKindView::Ready
    } else if w == seq!['d', 'e', 'p', 's'] {
        TokenKindView::Deps
    } else if w == seq!['a', 'r', 'g', 's'] {
        TokenKindView::Args
    } else if w == seq!['d', 'e', 's', 'c'] {
        TokenKindView::Desc
    } else if w == seq!['p', 'r', 'o', 'j', 'e', 'c', 't'] {
        TokenKindView::Project
    } else if w == seq!['s', 'h', 'e', 'l', 'l'] {
        TokenKindView::Shell
    } else {
        TokenKindView::Ident(w)
    }
}

/// The rest of a string literal from `k` (the opening quote was at `start`): its
/// contents so far are `buf`. `\"` stands for a quote; a newline or the end of the
/// source before the closing quote is an error at the opening quote.
pub open spec fn string_rest(s: Seq<char>, start: int, k: int, buf: Seq<char>) -> Result<
    (Seq<char>, int),
    ParseErrorView,
>
    decreases s.len() - k,
{
    if k < 0 || k >= s.len() || s[k] == '\n' {
        Err(ParseErrorView::UnterminatedString { location: location_of_index(s, start) })
    } else if s[k] == '"' {
        Ok((buf, k + 1))
    } else if s[k] == '\\' && k + 1 < s.len() && s[k + 1] == '"' {
        string_rest(s, start, k + 2, buf.push('"'))
    } else {
        string_rest(s, start, k + 1, buf.push(s[k]))
    }
}

/// One top-level token at `i`, and where lexing resumes: a run of blanks gives no token.
pub open spec fn lex_token_at(s: Seq<char>, i: int) -> Result<(Option<TokenView>, int), ParseErrorView> {
    let c = s[i];
    if is_blank(c) {
        Ok((None, blank_run_end(s, i)))
    } else if c == ':' {
        Ok((Some(token_at(s, TokenKindView::Colon, i, i + 1)), i + 1))
    } else if c == '=' {
        Ok((Some(token_at(s, TokenKindView::Equals, i, i + 1)), i + 1))
    } else if c == '[' {
        Ok((Some(token_at(s, TokenKindView::LBracket, i, i + 1)), i + 1))
    } else if c == ']' {
        Ok((Some(token_at(s, TokenKindView::RBracket, i, i + 1)), i + 1))
    } else if c == ',' {
        Ok((Some(token_at(s, TokenKindView::Comma, i, i + 1)), i + 1))
    } else if c == '"' {
        match string_rest(s, i, i + 1, Seq::empty()) {
            Ok((text, j)) => Ok((Some(token_at(s, TokenKindView::StringLit(text), i, j)), j)),
            Err(e) => Err(e),
        }
    } else if is_letter(c) || c == '_' {
        let j = ident_end(s, i + 1);
        Ok((Some(token_at(s, keyword_kind(s.subrange(i, j)), i, j)), j))
    } else {
        Err(ParseErrorView::UnexpectedChar { ch: c, location: location_of_index(s, i) })
    }
}

/// A character that an identifier may hold after its first: an ASCII letter or digit,
/// `_`, `-` or `.` (written out here, apart from the lexer's own test).
pub open spec fn identifier_tail_char(c: char) -> bool {
    ('a' <= c && c <= 'z') || ('A' <= c && c <= 'Z') || ('0' <= c && c <= '9') || c == '_' || c
        == '-' || c == '.'
}

/// A character that ends an identifier: a blank, the end of a line, or punctuation of
/// the task header.
pub open spec fn identifier_stop_char(c: char) -> bool {
    c == ' ' || c == '\t' || c == '\n' || c == '\r' || c == ':' || c == '=' || c == '[' || c == ']'
        || c == ',' || c == '"' || c == '#'
}

proof fn lemma_ident_end_at(s: Seq<char>, m: int, j: int)
    requires
        0 <= m <= j <= s.len(),
        forall|x: int| m <= x < j ==> identifier_tail_char(#[trigger] s[x]),
        j < s.len() ==> identifier_stop_char(s[j]),
    ensures
        ident_end(s, m) == j,
    decreases j - m,
{
    if m < j {
        assert(identifier_tail_char(s[m]));
        lemma_ident_end_at(s, m + 1, j);
    }
}

/// An identifier starts at a letter or `_` and runs over every ASCII letter, digit,
/// `_`, `-` and `.` that follows: the token at `i` covers `s[i..j]` and lexing resumes
/// at `j`, the first character that ends it (or the end of the source).
pub proof fn law_identifier_extent(s: Seq<char>, i: int, j: int)
    requires
        0 <= i < j <= s.len(),
        ('a' <= s[i] && s[i] <= 'z') || ('A' <= s[i] && s[i] <= 'Z') || s[i] == '_',
        forall|m: int| i < m < j ==> identifier_tail_char(#[trigger] s[m]),
        j < s.len() ==> identifier_stop_char(s[j]),
    ensures
        lex_token_at(s, i) == Ok::<(Option<TokenView>, int), ParseErrorView>(
            (Some(token_at(s, keyword_kind(s.subrange(i, j)), i, j)), j),
        ),
{
    lemma_ident_end_at(s, i + 1, j);
}

pub open spec fn opt_push(acc: Seq<TokenView>, t: Option<TokenView>) -> Seq<TokenView> {
    match t {
        Some(t) => acc.push(t),
        None => acc,
    }
}

pub proof fn lemma_string_rest_advances(s: Seq<char>, start: int, k: int, buf: Seq<char>)
    requires
        0 <= k,
    ensures
        string_rest(s, start, k, buf) matches Ok((_, j)) ==> k < j <= s.len(),
    decreases s.len() - k,
{
    if 0 <= k < s.len() && s[k] != '\n' && s[k] != '"' {
        if s[k] == '\\' && k + 1 < s.len() && s[k + 1] == '"' {
            lemma_string_rest_advances(s, start, k + 2, buf.push('"'));
        } else {
            lemma_string_rest_advances(s, start, k + 1, buf.push(s[k]));
        }
    }
}

pub proof fn lemma_run_ends(s: Seq<char>, i: int)
    requires
        0 <= i <= s.len(),
    ensures
        i <= blank_run_end(s, i) <= s.len(),
        i <= ident_end(s, i) <= s.len(),
        i <= line_end(s, i) <= s.len(),
        i <= command_end(s, i) <= s.len(),
    decreases s.len() - i,
{
    if i < s.len() {
        lemma_run_ends(s, i + 1);
    }
}

/// Where the runs stop.
pub proof fn lemma_run_stops(s: Seq<char>, i: int)
    requires
        0 <= i <= s.len(),
    ensures
        line_end(s, i) < s.len() ==> s[line_end(s, i)] == '\n',
        command_end(s, i) < s.len() ==> (s[command_end(s, i)] == '\n' || s[command_end(s, i)]
            == '#'),
    decreases s.len() - i,
{
    if i < s.len() {
        lemma_run_stops(s, i + 1);
    }
}

pub proof fn lemma_lex_token_advances(s: Seq<char>, i: int)
    requires
        0 <= i < s.len(),
    ensures
        lex_token_at(s, i) matches Ok((_, j)) ==> i < j <= s.len(),
{
    lemma_run_ends(s, i + 1);
    lemma_string_rest_advances(s, i, i + 1, Seq::empty());
    if is_blank(s[i]) {
        assert(blank_run_end(s, i) == blank_run_end(s, i + 1));
    }
}

/// The tokens of a `desc` line from `k` up to the end of the line or a `#` comment,
/// after `acc`.
pub open spec fn desc_line_tokens(s: Seq<char>, k: int, acc: Seq<TokenView>) -> Result<
    (Seq<TokenView>, int),
    ParseErrorView,
>
    decreases s.len() - k,
{
    if k < 0 || k >= s.len() || s[k] == '\n' || s[k] == '#' {
        Ok((acc, k))
    } else {
        match lex_token_at(s, k) {
            Err(e) => Err(e),
            Ok((t, j)) => {
                proof {
                    lemma_lex_token_advances(s, k);
                }
                desc_line_tokens(s, j, opt_push(acc, t))
            },
        }
    }
}

/// Whether the text at `j` is `desc` followed by a blank, `=`, a newline, a NUL or the
/// end of the source.
pub open spec fn starts_desc(s: Seq<char>, j: int) -> bool {
    &&& j + 4 <= s.len()
    &&& s.subrange(j, j + 4) == seq!['d', 'e', 's', 'c']
    &&& {
        let next = char_at(s, j + 4);
        next == ' ' || next == '=' || next == '\n' || next == '\0'
    }
}

/// The `Newline` token placed at position `k`.
pub open spec fn newline_at(s: Seq<char>, k: int) -> TokenView {
    TokenView {
        kind: TokenKindView::Newline,
        span: Span { start: byte_offset(s, k) as usize, end: (byte_offset(s, k) + 1) as usize },
    }
}

/// The `Indent` token for the blanks at `i..j`.
pub open spec fn indent_at(s: Seq<char>, i: int, j: int) -> TokenView {
    TokenView {
        kind: TokenKindView::Indent((j - i) as usize),
        span: Span {
            start: byte_offset(s, i) as usize,
            end: (byte_offset(s, i) + (j - i)) as usize,
        },
    }
}

/// A `desc` line whose text starts at `j`: the indent, its tokens up to a `#` comment,
/// then a `Newline` placed after the line's `'\n'`.
pub open spec fn desc_line(s: Seq<char>, j: int, indent: TokenView) -> Result<
    (Seq<TokenView>, int),
    ParseErrorView,
> {
    match desc_line_tokens(s, j, seq![indent]) {
        Err(e) => Err(e),
        Ok((ts, k)) => {
            let stop = if 0 <= k < s.len() && s[k] == '#' { line_end(s, k) } else { k };
            let next = if stop < s.len() { stop + 1 } else { stop };
            Ok((ts.push(newline_at(s, next)), next))
        },
    }
}

/// A command line whose text starts at `j`: the indent, the text up to a `#` comment
/// without trailing whitespace, and a `Newline` (nothing if the text is empty).
pub open spec fn command_line(s: Seq<char>, j: int, indent: TokenView) -> (Seq<TokenView>, int) {
    let e = command_end(s, j);
    let stop = if e < s.len() && s[e] == '#' { line_end(s, e) } else { e };
    let next = if stop < s.len() { stop + 1 } else { stop };
    let cmd = trim_end(s.subrange(j, e));
    if cmd.len() == 0 {
        (Seq::empty(), next)
    } else {
        (seq![indent, token_at(s, TokenKindView::Ident(cmd), j, stop), newline_at(s, stop)], next)
    }
}

/// The tokens of the indented line that starts at `i`, and where lexing resumes.
///
/// A line of blanks only, or whose first non-blank is `#`, gives nothing; otherwise a
/// `desc` line or a command line follows the blanks.
pub open spec fn indented_line(s: Seq<char>, i: int) -> Result<(Seq<TokenView>, int), ParseErrorView> {
    let j = blank_run_end(s, i);
    if j >= s.len() || s[j] == '\n' {
        Ok((Seq::empty(), if j < s.len() { j + 1 } else { j }))
    } else if s[j] == '#' {
        Ok((Seq::empty(), skip_line(s, j)))
    } else if starts_desc(s, j) {
        desc_line(s, j, indent_at(s, i, j))
    } else {
        Ok(command_line(s, j, indent_at(s, i, j)))
    }
}

pub proof fn lemma_indented_line_advances(s: Seq<char>, i: int)
    requires
        0 <= i < s.len(),
        is_blank(s[i]),
    ensures
        indented_line(s, i) matches Ok((_, j)) ==> i < j <= s.len(),
{
    lemma_run_ends(s, i);
    lemma_run_ends(s, i + 1);
    assert(blank_run_end(s, i) == blank_run_end(s, i + 1));
    let j = blank_run_end(s, i);
    if j < s.len() {
        lemma_run_ends(s, j);
        let e = command_end(s, j);
        if e < s.len() {
            lemma_run_ends(s, e);
        }
        lemma_desc_line_within(s, j, seq![indent_at(s, i, j)]);
        if let Ok((_, k)) = desc_line_tokens(s, j, seq![indent_at(s, i, j)]) {
            lemma_run_ends(s, k);
        }
    }
}

pub proof fn lemma_desc_line_within(s: Seq<char>, k: int, acc: Seq<TokenView>)
    requires
        0 <= k <= s.len(),
    ensures
        desc_line_tokens(s, k, acc) matches Ok((_, j)) ==> k <= j <= s.len(),
    decreases s.len() - k,
{
    if k < s.len() && s[k] != '\n' && s[k] != '#' {
        lemma_lex_token_advances(s, k);
        if let Ok((t, j)) = lex_token_at(s, k) {
            lemma_desc_line_within(s, j, opt_push(acc, t));
        }
    }
}

/// Whether `i` is at the start of a line.
pub open spec fn at_line_start(s: Seq<char>, i: int) -> bool {
    i == 0 || s[i - 1] == '\n'
}

pub open spec fn ends_with_newline(acc: Seq<TokenView>) -> bool {
    acc.len() > 0 && acc.last().kind == TokenKindView::Newline
}

/// The closing tokens: a `Newline` unless the last token is one, then `Eof`.
pub open spec fn finish_tokens(s: Seq<char>, acc: Seq<TokenView>) -> Seq<TokenView> {
    let end = byte_offset(s, s.len() as int) as usize;
    let acc2 = if ends_with_newline(acc) {
        acc
    } else {
        acc.push(TokenView { kind: TokenKindView::Newline, span: Span { start: end, end } })
    };
    acc2.push(TokenView { kind: TokenKindView::Eof, span: Span { start: end, end } })
}

/// The tokens of the source from `i` on, after `acc`.
///
/// A `'\n'` gives a `Newline` unless no token precedes it or the previous token is a
/// `Newline`; a line whose first character is `#` is a comment; a line that starts
/// with a blank is an indented body line; anything else is lexed token by token.
#[verifier::opaque]
pub open spec fn tokenize_from(s: Seq<char>, i: int, acc: Seq<TokenView>) -> Result<
    Seq<TokenView>,
    ParseErrorView,
>
    decreases s.len() - i,
{
    if i < 0 || i >= s.len() {
        Ok(finish_tokens(s, acc))
    } else if s[i] == '\n' {
        let acc2 = if acc.len() > 0 && !ends_with_newline(acc) {
            acc.push(token_at(s, TokenKindView::Newline, i, i + 1))
        } else {
            acc
        };
        tokenize_from(s, i + 1, acc2)
    } else if s[i] == '#' {
        proof {
            lemma_run_ends(s, i);
        }
        tokenize_from(s, skip_line(s, i), acc)
    } else if at_line_start(s, i) && is_blank(s[i]) {
        match indented_line(s, i) {
            Err(e) => Err(e),
            Ok((ts, j)) => {
                proof {
                    lemma_indented_line_advances(s, i);
                }
                tokenize_from(s, j, acc + ts)
            },
        }
    } else {
        match lex_token_at(s, i) {
            Err(e) => Err(e),
            Ok((t, j)) => {
                proof {
                    lemma_lex_token_advances(s, i);
                }
                tokenize_from(s, j, opt_push(acc, t))
            },
        }
    }
}

pub proof fn lemma_tokenize_end(s: Seq<char>, i: int, acc: Seq<TokenView>)
    requires
        i >= s.len(),
    ensures
        tokenize_from(s, i, acc) == Ok::<Seq<TokenView>, ParseErrorView>(finish_tokens(s, acc)),
{
    reveal(tokenize_from);
}

pub proof fn lemma_tokenize_newline(s: Seq<char>, i: int, acc: Seq<TokenView>)
    requires
        0 <= i < s.len(),
        s[i] == '\n',
    ensures
        tokenize_from(s, i, acc) == tokenize_from(
            s,
            i + 1,
            if acc.len() > 0 && !ends_with_newline(acc) {
                acc.push(token_at(s, TokenKindView::Newline, i, i + 1))
            } else {
                acc
            },
        ),
{
    reveal(tokenize_from);
}

pub proof fn lemma_tokenize_comment(s: Seq<char>, i: int, acc: Seq<TokenView>)
    requires
        0 <= i < s.len(),
        s[i] == '#',
    ensures
        tokenize_from(s, i, acc) == tokenize_from(s, skip_line(s, i), acc),
{
    reveal(tokenize_from);
}

pub proof fn lemma_tokenize_indented(s: Seq<char>, i: int, acc: Seq<TokenView>)
    requires
        0 <= i < s.len(),
        s[i] != '\n',
        s[i] != '#',
        at_line_start(s, i),
        is_blank(s[i]),
    ensures
        tokenize_from(s, i, acc) == match indented_line(s, i) {
            Err(e) => Err(e),
            Ok((ts, j)) => tokenize_from(s, j, acc + ts),
        },
{
    reveal(tokenize_from);
}

pub proof fn lemma_tokenize_token(s: Seq<char>, i: int, acc: Seq<TokenView>)
    requires
        0 <= i < s.len(),
        s[i] != '\n',
        s[i] != '#',
        !(at_line_start(s, i) && is_blank(s[i])),
    ensures
        tokenize_from(s, i, acc) == match lex_token_at(s, i) {
            Err(e) => Err(e),
            Ok((t, j)) => tokenize_from(s, j, opt_push(acc, t)),
        },
{
    reveal(tokenize_from);
}

/// Every token starts on a character boundary of the source.
pub open spec fn tokens_on_boundaries(t: Seq<TokenView>, s: Seq<char>) -> bool {
    forall|c: int| 0 <= c < t.len() ==> is_boundary(s, #[trigger] t[c].span.start as int)
}

proof fn lemma_offset_boundary(s: Seq<char>, k: int)
    requires
        0 <= k <= s.len(),
        utf8_len(s) < usize::MAX,
    ensures
        is_boundary(s, (byte_offset(s, k) as usize) as int),
{
    lemma_byte_offset_mono(s, k, s.len() as int);
    lemma_byte_offset_full(s);
    assert(0 <= k <= s.len() && byte_offset(s, k) == byte_offset(s, k));
}

proof fn lemma_push_boundary(ts: Seq<TokenView>, t: TokenView, s: Seq<char>)
    requires
        tokens_on_boundaries(ts, s),
        is_boundary(s, t.span.start as int),
    ensures
        tokens_on_boundaries(ts.push(t), s),
{
    assert forall|c: int| 0 <= c < ts.push(t).len() implies is_boundary(s, #[trigger] ts.push(t)[c].span.start as int) by {
        if c < ts.len() {
            assert(ts.push(t)[c] == ts[c]);
        }
    }
}

proof fn lemma_lex_token_boundary(s: Seq<char>, i: int)
    requires
        0 <= i < s.len(),
        utf8_len(s) < usize::MAX,
    ensures
        lex_token_at(s, i) matches Ok((Some(t), _)) ==> is_boundary(s, t.span.start as int),
{
    lemma_offset_boundary(s, i);
}

proof fn lemma_desc_tokens_boundary(s: Seq<char>, k: int, acc: Seq<TokenView>)
    requires
        0 <= k <= s.len(),
        utf8_len(s) < usize::MAX,
        tokens_on_boundaries(acc, s),
    ensures
        desc_line_tokens(s, k, acc) matches Ok((ts, _)) ==> tokens_on_boundaries(ts, s),
    decreases s.len() - k,
{
    if k < s.len() && s[k] != '\n' {
        lemma_lex_token_advances(s, k);
        lemma_lex_token_boundary(s, k);
        if let Ok((t, j)) = lex_token_at(s, k) {
            if let Some(tok) = t {
                lemma_push_boundary(acc, tok, s);
            }
            lemma_desc_tokens_boundary(s, j, opt_push(acc, t));
        }
    }
}

proof fn lemma_indented_boundary(s: Seq<char>, i: int)
    requires
        0 <= i < s.len(),
        is_blank(s[i]),
        utf8_len(s) < usize::MAX,
    ensures
        indented_line(s, i) matches Ok((ts, _)) ==> tokens_on_boundaries(ts, s),
{
    lemma_run_ends(s, i);
    let j = blank_run_end(s, i);
    if j < s.len() && s[j] != '\n' && s[j] != '#' {
        lemma_offset_boundary(s, i);
        let indent = indent_at(s, i, j);
        lemma_push_boundary(Seq::empty(), indent, s);
        assert(seq![indent] =~= Seq::<TokenView>::empty().push(indent));
        if starts_desc(s, j) {
            lemma_desc_tokens_boundary(s, j, seq![indent]);
            lemma_desc_line_within(s, j, seq![indent]);
            if let Ok((ts, k)) = desc_line_tokens(s, j, seq![indent]) {
                lemma_run_ends(s, k);
                let stop = if 0 <= k < s.len() && s[k] == '#' { line_end(s, k) } else { k };
                let next = if stop < s.len() { stop + 1 } else { stop };
                lemma_offset_boundary(s, next);
                lemma_push_boundary(ts, newline_at(s, next), s);
            }
        } else {
            lemma_run_ends(s, j);
            let e = command_end(s, j);
            lemma_run_ends(s, e);
            let stop = if e < s.len() && s[e] == '#' { line_end(s, e) } else { e };
            lemma_offset_boundary(s, j);
            lemma_offset_boundary(s, stop);
            let (ts, _) = command_line(s, j, indent);
            assert forall|c: int| 0 <= c < ts.len() implies is_boundary(s, #[trigger] ts[c].span.start as int) by {
            }
        }
    }
}

/// Lexing ends with `Newline` then `Eof`, and every token starts on a character
/// boundary.
pub proof fn lemma_tokenize_shape(s: Seq<char>, i: int, acc: Seq<TokenView>)
    requires
        0 <= i <= s.len(),
        utf8_len(s) < usize::MAX,
        tokens_on_boundaries(acc, s),
    ensures
        tokenize_from(s, i, acc) matches Ok(ts) ==> ts.len() >= 2 && ts.last().kind
            == TokenKindView::Eof && ts[ts.len() - 2].kind == TokenKindView::Newline
            && tokens_on_boundaries(ts, s),
    decreases s.len() - i,
{
    if i >= s.len() {
        lemma_tokenize_end(s, i, acc);
        lemma_offset_boundary(s, s.len() as int);
        let end = byte_offset(s, s.len() as int) as usize;
        let nl = TokenView { kind: TokenKindView::Newline, span: Span { start: end, end } };
        let eof = TokenView { kind: TokenKindView::Eof, span: Span { start: end, end } };
        lemma_push_boundary(acc, nl, s);
        let acc2 = if ends_with_newline(acc) { acc } else { acc.push(nl) };
        lemma_push_boundary(acc2, eof, s);
    } else if s[i] == '\n' {
        lemma_tokenize_newline(s, i, acc);
        lemma_offset_boundary(s, i);
        lemma_push_boundary(acc, token_at(s, TokenKindView::Newline, i, i + 1), s);
        let acc2 = if acc.len() > 0 && !ends_with_newline(acc) {
            acc.push(token_at(s, TokenKindView::Newline, i, i + 1))
        } else {
            acc
        };
        lemma_tokenize_shape(s, i + 1, acc2);
    } else if s[i] == '#' {
        lemma_tokenize_comment(s, i, acc);
        lemma_run_ends(s, i);
        lemma_tokenize_shape(s, skip_line(s, i), acc);
    } else if at_line_start(s, i) && is_blank(s[i]) {
        lemma_tokenize_indented(s, i, acc);
        lemma_indented_line_advances(s, i);
        lemma_indented_boundary(s, i);
        if let Ok((ts, j)) = indented_line(s, i) {
            assert(tokens_on_boundaries(acc + ts, s)) by {
                assert forall|c: int| 0 <= c < (acc + ts).len() implies is_boundary(s, #[trigger] (acc + ts)[c].span.start as int) by {
                    if c < acc.len() {
                        assert((acc + ts)[c] == acc[c]);
                        assert(is_boundary(s, acc[c].span.start as int));
                    } else {
                        assert((acc + ts)[c] == ts[c - acc.len()]);
                        assert(is_boundary(s, ts[c - acc.len()].span.start as int));
                    }
                }
            }
            lemma_tokenize_shape(s, j, acc + ts);
        }
    } else {
        lemma_tokenize_token(s, i, acc);
        lemma_lex_token_advances(s, i);
        lemma_lex_token_boundary(s, i);
        if let Ok((t, j)) = lex_token_at(s, i) {
            if let Some(tok) = t {
                lemma_push_boundary(acc, tok, s);
            }
            lemma_tokenize_shape(s, j, opt_push(acc, t));
        }
    }
}

/// The tokens of a whole source, or its first lexical error.
pub open spec fn spec_tokenize(s: Seq<char>) -> Result<Seq<TokenView>, ParseErrorView> {
    tokenize_from(s, 0, Seq::empty())
}


// ── The lexer ────────────────────────────────────────────────────────────────

impl Token {
    fn new(kind: TokenKind, start: usize, end: usize) -> (t: Self)
        ensures
            t.kind == kind,
            t.span == (Span { start, end }),
    {
        Self { kind, span: Span::new(start, end) }
    }
}

/// Lexer state: the source, its characters, and the current position both as a
/// character index and as a byte offset.
pub struct Lexer<'src> {
    src: &'src str,
    chars: Vec<char>,
    /// Current character index.
    idx: usize,
    /// Current byte position (the byte offset of `idx`).
    pos: usize,
}

/// `r` is the result that `spec` describes, token for token or error for error.
pub open spec fn tokens_result_is(
    r: Result<Vec<Token>, ParseError>,
    spec: Result<Seq<TokenView>, ParseErrorView>,
) -> bool {
    match spec {
        Ok(ts) => r matches Ok(v) && tokens_view(v@) == ts,
        Err(e) => r matches Err(x) && x@ == e,
    }
}

impl<'src> Lexer<'src> {
    /// The source text being lexed.
    pub closed spec fn source(&self) -> Seq<char> {
        self.src@
    }

    /// The lexer has not consumed anything yet.
    pub closed spec fn at_start(&self) -> bool {
        &&& self.idx == 0
        &&& self.pos == 0
        &&& self.chars@ == self.src@
    }

    closed spec fn wf(&self) -> bool {
        &&& self.chars@ == self.src@
        &&& self.idx <= self.chars@.len()
        &&& self.pos == byte_offset(self.chars@, self.idx as int)
        &&& utf8_len(self.chars@) < usize::MAX
    }

    closed spec fn s(&self) -> Seq<char> {
        self.chars@
    }

    pub fn new(src: &'src str) -> (l: Self)
        ensures
            l.source() == src@,
            l.at_start(),
    {
        let chars = str_chars(src);
        Self { src, chars, idx: 0, pos: 0 }
    }

    /// Lex the entire source and return all tokens, ending with `Newline` and `Eof`.
    #[verifier::loop_isolation(false)]
    pub fn tokenize(self) -> (r: Result<Vec<Token>, ParseError>)
        requires
            utf8_len(self.source()) < usize::MAX,
            self.at_start(),
        ensures
            tokens_result_is(r, spec_tokenize(self.source())),
    {
        let mut this = self;
        proof {
            assert(this.chars@.take(0) =~= Seq::<char>::empty());
        }
        let ghost s = this.chars@;
        let mut tokens: Vec<Token> = Vec::new();
        assert(tokens_view(tokens@) =~= Seq::<TokenView>::empty());
        while !this.is_at_end()
            invariant
                this.wf(),
                this.s() == s,
                s == this.source(),
                spec_tokenize(s) == tokenize_from(s, this.idx as int, tokens_view(tokens@)),
            decreases s.len() - this.idx,
        {
            let ghost acc = tokens_view(tokens@);
            let ghost i = this.idx as int;
            if this.peek() == '\n' {
                proof {
                    lemma_tokenize_newline(s, i, acc);
                }
                this.advance();
                let is_nl = tokens.len() > 0 && matches!(tokens[tokens.len() - 1].kind, TokenKind::Newline);
                if !is_nl && tokens.len() > 0 {
                    let pos = this.pos;
                    proof {
                        lemma_byte_offset_step(s, i);
                    }
                    tokens.push(Token::new(TokenKind::Newline, pos - 1, pos));
                    assert(tokens_view(tokens@) =~= acc.push(token_at(s, TokenKindView::Newline, i, i + 1)));
                } else {
                    assert(tokens_view(tokens@) == acc);
                }
                continue;
            }
            if this.peek() == '#' {
                proof {
                    lemma_tokenize_comment(s, i, acc);
                    lemma_run_ends(s, i);
                }
                this.skip_line();
                continue;
            }
            if this.is_at_line_start() && (this.peek() == ' ' || this.peek() == '\t') {
                proof {
                    lemma_tokenize_indented(s, i, acc);
                    lemma_indented_line_advances(s, i);
                }
                let mut tok = this.lex_indent_and_command()?;
                let ghost ts = tokens_view(tok@);
                tokens.append(&mut tok);
                assert(tokens_view(tokens@) =~= acc + ts);
                continue;
            }
            proof {
                lemma_tokenize_token(s, i, acc);
                lemma_lex_token_advances(s, i);
            }
            let t = this.lex_token()?;
            match t {
                Some(tok) => {
                    tokens.push(tok);
                    assert(tokens_view(tokens@) =~= acc.push(tok@));
                },
                None => {},
            }
        }
        proof {
            lemma_byte_offset_full(s);
            lemma_tokenize_end(s, this.idx as int, tokens_view(tokens@));
        }
        let is_nl = tokens.len() > 0 && matches!(tokens[tokens.len() - 1].kind, TokenKind::Newline);
        let ghost acc = tokens_view(tokens@);
        if !is_nl {
            tokens.push(Token::new(TokenKind::Newline, this.pos, this.pos));
        }
        tokens.push(Token::new(TokenKind::Eof, this.pos, this.pos));
        assert(tokens_view(tokens@) =~= finish_tokens(s, acc));
        Ok(tokens)
    }

    /// Lex one indented line: `Indent`, then the `desc` tokens or the command text, then
    /// `Newline`; nothing for a blank or comment line.
    fn lex_indent_and_command(&mut self) -> (r: Result<Vec<Token>, ParseError>)
        requires
            old(self).wf(),
            old(self).idx < old(self).s().len(),
            is_blank(old(self).s()[old(self).idx as int]),
        ensures
            final(self).wf(),
            final(self).s() == old(self).s(),
            final(self).src == old(self).src,
            match indented_line(old(self).s(), old(self).idx as int) {
                Ok((ts, j)) => r matches Ok(v) && tokens_view(v@) == ts && final(self).idx == j,
                Err(e) => r matches Err(x) && x@ == e,
            },
    {
        let ghost s = self.s();
        let ghost i = self.idx as int;
        proof {
            lemma_run_ends(s, i);
            lemma_byte_offset_ge_index(s, s.len() as int);
            lemma_byte_offset_full(s);
        }
        let line_start = self.pos;
        // Count leading blanks (a tab counts as one).
        let mut depth: usize = 0;
        while !self.is_at_end() && (self.peek() == ' ' || self.peek() == '\t')
            invariant
                self.wf(),
                self.s() == s,
                s == old(self).s(),
                self.src == old(self).src,
                0 <= i,
                i == old(self).idx,
                self.idx as int == i + depth,
                s.len() < usize::MAX,
                blank_run_end(s, i) == blank_run_end(s, self.idx as int),
                line_start == byte_offset(s, i),
                self.pos == line_start + depth,
            decreases s.len() - self.idx,
        {
            proof {
                lemma_byte_offset_step(s, self.idx as int);
            }
            depth += 1;
            self.advance();
        }
        // A line that is only whitespace.
        if self.is_at_end() || self.peek() == '\n' {
            if !self.is_at_end() {
                self.advance();
            }
            return Ok(Vec::new());
        }
        // A comment line.
        if self.peek() == '#' {
            self.skip_line();
            return Ok(Vec::new());
        }
        let indent = Token::new(TokenKind::Indent(depth), line_start, line_start + depth);
        assert(indent@ == indent_at(s, i, self.idx as int));
        // `desc = "…"` is lexed as ordinary tokens.
        if self.starts_with_desc() {
            return self.lex_desc_line(indent);
        }
        Ok(self.lex_command_line(indent))
    }

    /// The rest of a `desc` line, after its indent.
    fn lex_desc_line(&mut self, indent: Token) -> (r: Result<Vec<Token>, ParseError>)
        requires
            old(self).wf(),
        ensures
            final(self).wf(),
            final(self).s() == old(self).s(),
            final(self).src == old(self).src,
            match desc_line(old(self).s(), old(self).idx as int, indent@) {
                Ok((ts, j)) => r matches Ok(v) && tokens_view(v@) == ts && final(self).idx == j,
                Err(e) => r matches Err(x) && x@ == e,
            },
    {
        let ghost s = self.s();
        let ghost j = self.idx as int;
        let mut result: Vec<Token> = Vec::new();
        result.push(indent);
        assert(tokens_view(result@) =~= seq![indent@]);
        while !self.is_at_end() && self.peek() != '\n' && self.peek() != '#'
            invariant
                self.wf(),
                self.s() == s,
                s == old(self).s(),
                self.src == old(self).src,
                j == old(self).idx,
                j <= self.idx,
                desc_line_tokens(s, j, seq![indent@]) == desc_line_tokens(
                    s,
                    self.idx as int,
                    tokens_view(result@),
                ),
            decreases s.len() - self.idx,
        {
            let ghost acc = tokens_view(result@);
            let ghost k = self.idx as int;
            proof {
                lemma_lex_token_advances(s, k);
            }
            match self.lex_token() {
                Ok(Some(tok)) => {
                    result.push(tok);
                    assert(tokens_view(result@) =~= acc.push(tok@));
                },
                Ok(None) => {},
                Err(e) => {
                    return Err(e);
                },
            }
        }
        let ghost acc = tokens_view(result@);
        proof {
            lemma_run_ends(s, self.idx as int);
            lemma_run_stops(s, self.idx as int);
        }
        self.read_until_newline_or_comment();
        proof {
            lemma_run_stops(s, self.idx as int);
        }
        if !self.is_at_end() && self.peek() == '\n' {
            self.advance();
        }
        proof {
            lemma_byte_offset_mono(s, self.idx as int, s.len() as int);
            lemma_byte_offset_full(s);
        }
        result.push(Token::new(TokenKind::Newline, self.pos, self.pos + 1));
        assert(tokens_view(result@) =~= acc.push(newline_at(s, self.idx as int)));
        Ok(result)
    }

    /// The rest of a command line, after its indent: the text up to a `#` comment,
    /// without trailing whitespace.
    fn lex_command_line(&mut self, indent: Token) -> (r: Vec<Token>)
        requires
            old(self).wf(),
        ensures
            final(self).wf(),
            final(self).s() == old(self).s(),
            final(self).src == old(self).src,
            tokens_view(r@) == command_line(old(self).s(), old(self).idx as int, indent@).0,
            final(self).idx == command_line(old(self).s(), old(self).idx as int, indent@).1,
    {
        let ghost s = self.s();
        let cmd_start = self.idx;
        let cmd_start_pos = self.pos;
        proof {
            lemma_run_ends(s, cmd_start as int);
            lemma_run_stops(s, cmd_start as int);
        }
        let text_end = self.read_until_newline_or_comment();
        proof {
            lemma_run_ends(s, text_end as int);
            lemma_run_stops(s, text_end as int);
        }
        let cmd_end = self.pos;
        let ghost stop = self.idx as int;
        if !self.is_at_end() && self.peek() == '\n' {
            self.advance();
        }
        let ghost after = self.idx as int;
        assert(after == command_line(s, cmd_start as int, indent@).1);
        let mut k = text_end;
        while k > cmd_start && char_is_whitespace(self.chars[k - 1])
            invariant
                self.wf(),
                self.s() == s,
                self.idx == after,
                cmd_start <= k <= text_end <= s.len(),
                trim_end(s.subrange(cmd_start as int, text_end as int)) == trim_end(
                    s.subrange(cmd_start as int, k as int),
                ),
            decreases k,
        {
            assert(s.subrange(cmd_start as int, k as int).drop_last() =~= s.subrange(
                cmd_start as int,
                k - 1,
            ));
            k -= 1;
        }
        assert(trim_end(s.subrange(cmd_start as int, k as int)) == s.subrange(
            cmd_start as int,
            k as int,
        ));
        if k == cmd_start {
            assert(s.subrange(cmd_start as int, k as int).len() == 0);
            return Vec::new();
        }
        let cmd = string_from_chars(&self.chars, cmd_start, k);
        proof {
            lemma_byte_offset_mono(s, stop, s.len() as int);
            lemma_byte_offset_full(s);
        }
        let mut result: Vec<Token> = Vec::new();
        result.push(indent);
        result.push(Token::new(TokenKind::Ident(cmd), cmd_start_pos, cmd_end));
        result.push(Token::new(TokenKind::Newline, cmd_end, cmd_end + 1));
        assert(tokens_view(result@) =~= seq![
            indent@,
            token_at(
                s,
                TokenKindView::Ident(s.subrange(cmd_start as int, k as int)),
                cmd_start as int,
                stop,
            ),
            newline_at(s, stop),
        ]);
        result
    }

    /// Whether the text here is `desc` followed by a blank, `=`, a newline or nothing.
    fn starts_with_desc(&self) -> (r: bool)
        requires
            self.wf(),
        ensures
            r == starts_desc(self.s(), self.idx as int),
    {
        let i = self.idx;
        let n = self.chars.len();
        if i <= n && n - i >= 4 && self.chars[i] == 'd' && self.chars[i + 1] == 'e'
            && self.chars[i + 2] == 's' && self.chars[i + 3] == 'c' {
            let next = if i + 4 < n { self.chars[i + 4] } else { '\0' };
            assert(self.s().subrange(i as int, i + 4) =~= seq!['d', 'e', 's', 'c']);
            next == ' ' || next == '=' || next == '\n' || next == '\0'
        } else {
            proof {
                if i + 4 <= n && self.s().subrange(i as int, i + 4) == seq!['d', 'e', 's', 'c'] {
                    assert(self.s().subrange(i as int, i + 4)[0] == self.s()[i as int]);
                    assert(self.s().subrange(i as int, i + 4)[1] == self.s()[i + 1]);
                    assert(self.s().subrange(i as int, i + 4)[2] == self.s()[i + 2]);
                    assert(self.s().subrange(i as int, i + 4)[3] == self.s()[i + 3]);
                }
            }
            false
        }
    }

    /// Lex one top-level token (keyword, punctuation, string or identifier); a run of
    /// blanks between tokens gives none.
    fn lex_token(&mut self) -> (r: Result<Option<Token>, ParseError>)
        requires
            old(self).wf(),
            old(self).idx < old(self).s().len(),
        ensures
            final(self).wf(),
            final(self).s() == old(self).s(),
            final(self).src == old(self).src,
            match lex_token_at(old(self).s(), old(self).idx as int) {
                Ok((t, j)) => r matches Ok(o) && final(self).idx == j && match o {
                    Some(tok) => t == Some(tok@),
                    None => t is None,
                },
                Err(e) => r matches Err(x) && x@ == e,
            },
    {
        let ghost s = self.s();
        let ghost i = self.idx as int;
        proof {
            lemma_byte_offset_step(s, i);
            lemma_byte_offset_mono(s, i + 1, s.len() as int);
            lemma_byte_offset_full(s);
        }
        if self.peek() == ' ' || self.peek() == '\t' {
            while !self.is_at_end() && (self.peek() == ' ' || self.peek() == '\t')
                invariant
                    self.wf(),
                    self.s() == s,
                    s == old(self).s(),
                    self.src == old(self).src,
                    i <= self.idx,
                    blank_run_end(s, i) == blank_run_end(s, self.idx as int),
                decreases s.len() - self.idx,
            {
                self.advance();
            }
            return Ok(None);
        }
        let start = self.pos;
        let c = self.peek();
        if c == ':' {
            self.advance();
            return Ok(Some(Token::new(TokenKind::Colon, start, self.pos)));
        }
        if c == '=' {
            self.advance();
            return Ok(Some(Token::new(TokenKind::Equals, start, self.pos)));
        }
        if c == '[' {
            self.advance();
            return Ok(Some(Token::new(TokenKind::LBracket, start, self.pos)));
        }
        if c == ']' {
            self.advance();
            return Ok(Some(Token::new(TokenKind::RBracket, start, self.pos)));
        }
        if c == ',' {
            self.advance();
            return Ok(Some(Token::new(TokenKind::Comma, start, self.pos)));
        }
        if c == '"' {
            let text = self.lex_string()?;
            return Ok(Some(Token::new(TokenKind::StringLit(text), start, self.pos)));
        }
        if char_is_alphabetic(c) || c == '_' {
            let word = self.lex_ident();
            let kind = Self::keyword_or_ident(word);
            return Ok(Some(Token::new(kind, start, self.pos)));
        }
        proof {
            lemma_location_of_offset(s, i);
        }
        let location = offset_to_location_in(&self.chars, start);
        Err(ParseError::UnexpectedChar { ch: c, location })
    }

    /// Consume a `"…"` string and return its contents without the quotes.
    fn lex_string(&mut self) -> (r: Result<String, ParseError>)
        requires
            old(self).wf(),
            old(self).idx < old(self).s().len(),
            old(self).s()[old(self).idx as int] == '"',
        ensures
            final(self).wf(),
            final(self).s() == old(self).s(),
            final(self).src == old(self).src,
            match string_rest(old(self).s(), old(self).idx as int, old(self).idx + 1, Seq::empty()) {
                Ok((text, j)) => r matches Ok(x) && x@ == text && final(self).idx == j,
                Err(e) => r matches Err(x) && x@ == e,
            },
    {
        let ghost s = self.s();
        let ghost i = self.idx as int;
        let start = self.pos;
        self.advance();
        let mut buf = String::new();
        loop
            invariant_except_break
                string_rest(s, i, i + 1, Seq::empty()) == string_rest(
                    s,
                    i,
                    self.idx as int,
                    buf@,
                ),
            invariant
                self.wf(),
                self.s() == s,
                s == old(self).s(),
                self.src == old(self).src,
                0 <= i < self.idx,
                i == old(self).idx,
                start == byte_offset(s, i),
            ensures
                string_rest(s, i, i + 1, Seq::empty()) == Ok::<(Seq<char>, int), ParseErrorView>((buf@, self.idx as int)),
            decreases s.len() - self.idx,
        {
            if self.is_at_end() || self.peek() == '\n' {
                proof {
                    lemma_byte_offset_mono(s, i, s.len() as int);
                    lemma_byte_offset_full(s);
                    lemma_location_of_offset(s, i);
                }
                let location = offset_to_location_in(&self.chars, start);
                return Err(ParseError::UnterminatedString { location });
            }
            let c = self.current_char();
            self.advance();
            if c == '"' {
                break;
            }
            // `\"` stands for a quote.
            if c == '\\' && !self.is_at_end() && self.peek() == '"' {
                crate::text::string_push(&mut buf, '"');
                self.advance();
                continue;
            }
            crate::text::string_push(&mut buf, c);
        }
        Ok(buf)
    }

    /// Consume an identifier (letters, digits, `-`, `_`, `.`).
    fn lex_ident(&mut self) -> (w: String)
        requires
            old(self).wf(),
            old(self).idx < old(self).s().len(),
            is_letter(old(self).s()[old(self).idx as int]) || old(self).s()[old(
                self,
            ).idx as int] == '_',
        ensures
            final(self).wf(),
            final(self).s() == old(self).s(),
            final(self).src == old(self).src,
            final(self).idx == ident_end(old(self).s(), old(self).idx + 1),
            w@ == old(self).s().subrange(old(self).idx as int, final(self).idx as int),
    {
        let ghost s = self.s();
        let start = self.idx;
        proof {
            lemma_run_ends(s, start + 1);
        }
        while !self.is_at_end()
            invariant
                self.wf(),
                self.s() == s,
                s == old(self).s(),
                self.src == old(self).src,
                start <= self.idx,
                start < s.len(),
                start == old(self).idx,
                is_letter(s[start as int]) || s[start as int] == '_',
                self.idx > start ==> ident_end(s, start + 1) == ident_end(s, self.idx as int),
            ensures
                self.wf(),
                self.s() == s,
                s == old(self).s(),
                self.src == old(self).src,
                self.idx == ident_end(s, start + 1),
            decreases s.len() - self.idx,
        {
            let c = self.peek();
            let alnum = char_is_alphanumeric(c);
            if alnum || c == '_' || c == '-' || c == '.' {
                self.advance();
            } else {
                proof {
                    if self.idx == start {
                        assert(false);
                    }
                }
                break;
            }
        }
        string_from_chars(&self.chars, start, self.idx)
    }

    /// Map a word to its keyword token, or to an identifier.
    fn keyword_or_ident(word: String) -> (k: TokenKind)
        ensures
            k@ == keyword_kind(word@),
    {
        proof {
            reveal_strlit("task");
            reveal_strlit("parallel");
            reveal_strlit("watch");
            reveal_strlit("ready");
            reveal_strlit("deps");
            reveal_strlit("args");
            reveal_strlit("desc");
            reveal_strlit("project");
            reveal_strlit("shell");
        }
        let w = word.as_str();
        if str_eq(w, "task") {
            assert("task"@ =~= seq!['t', 'a', 's', 'k']);
            TokenKind::Task
        } else if str_eq(w, "parallel") {
            assert("parallel"@ =~= seq!['p', 'a', 'r', 'a', 'l', 'l', 'e', 'l']);
            TokenKind::Parallel
        } else if str_eq(w, "watch") {
            assert("watch"@ =~= seq!['w', 'a', 't', 'c', 'h']);
            TokenKind::Watch
        } else if str_eq(w, "ready") {
            assert("ready"@ =~= seq!['r', 'e', 'a', 'd', 'y']);
            TokenKind::Ready
        } else if str_eq(w, "deps") {
            assert("deps"@ =~= seq!['d', 'e', 'p', 's']);
            TokenKind::Deps
        } else if str_eq(w, "args") {
            assert("args"@ =~= seq!['a', 'r', 'g', 's']);
            TokenKind::Args
        } else if str_eq(w, "desc") {
            assert("desc"@ =~= seq!['d', 'e', 's', 'c']);
            TokenKind::Desc
        } else if str_eq(w, "project") {
            assert("project"@ =~= seq!['p', 'r', 'o', 'j', 'e', 'c', 't']);
            TokenKind::Project
        } else if str_eq(w, "shell") {
            assert("shell"@ =~= seq!['s', 'h', 'e', 'l', 'l']);
            TokenKind::Shell
        } else {
            assert("task"@ =~= seq!['t', 'a', 's', 'k']);
            assert("parallel"@ =~= seq!['p', 'a', 'r', 'a', 'l', 'l', 'e', 'l']);
            assert("watch"@ =~= seq!['w', 'a', 't', 'c', 'h']);
            assert("ready"@ =~= seq!['r', 'e', 'a', 'd', 'y']);
            assert("deps"@ =~= seq!['d', 'e', 'p', 's']);
            assert("args"@ =~= seq!['a', 'r', 'g', 's']);
            assert("desc"@ =~= seq!['d', 'e', 's', 'c']);
            assert("project"@ =~= seq!['p', 'r', 'o', 'j', 'e', 'c', 't']);
            assert("shell"@ =~= seq!['s', 'h', 'e', 'l', 'l']);
            TokenKind::Ident(word)
        }
    }

    /// Advance to the first `\n` or `#`; at a `#` (an inline comment), go on to the end
    /// of the line. Neither the `\n` nor the comment belongs to the command: the result
    /// is the index where the command text ends.
    fn read_until_newline_or_comment(&mut self) -> (e: usize)
        requires
            old(self).wf(),
        ensures
            final(self).wf(),
            final(self).s() == old(self).s(),
            final(self).src == old(self).src,
            e == command_end(old(self).s(), old(self).idx as int),
            final(self).idx == (if e < old(self).s().len() && old(self).s()[e as int] == '#' {
                line_end(old(self).s(), e as int)
            } else {
                e as int
            }),
    {
        let ghost s = self.s();
        let ghost i = self.idx as int;
        while !self.is_at_end() && self.peek() != '\n' && self.peek() != '#'
            invariant
                self.wf(),
                self.s() == s,
                s == old(self).s(),
                self.src == old(self).src,
                i <= self.idx,
                command_end(s, i) == command_end(s, self.idx as int),
            decreases s.len() - self.idx,
        {
            self.advance();
        }
        let e = self.idx;
        if !self.is_at_end() && self.peek() == '#' {
            while !self.is_at_end() && self.peek() != '\n'
                invariant
                    self.wf(),
                    self.s() == s,
                    s == old(self).s(),
                    self.src == old(self).src,
                    e <= self.idx,
                    line_end(s, e as int) == line_end(s, self.idx as int),
                decreases s.len() - self.idx,
            {
                self.advance();
            }
        }
        e
    }

    /// Advance past the rest of the current line (stops after consuming `\n`).
    fn skip_line(&mut self)
        requires
            old(self).wf(),
        ensures
            final(self).wf(),
            final(self).s() == old(self).s(),
            final(self).src == old(self).src,
            final(self).idx == skip_line(old(self).s(), old(self).idx as int),
    {
        let ghost s = self.s();
        let ghost i = self.idx as int;
        while !self.is_at_end() && self.peek() != '\n'
            invariant
                self.wf(),
                self.s() == s,
                s == old(self).s(),
                self.src == old(self).src,
                i <= self.idx,
                line_end(s, i) == line_end(s, self.idx as int),
            decreases s.len() - self.idx,
        {
            self.advance();
        }
        if !self.is_at_end() {
            self.advance();
        }
    }

    /// The character at the current position, or `'\0'` at the end.
    fn peek(&self) -> (c: char)
        requires
            self.wf(),
        ensures
            c == char_at(self.s(), self.idx as int),
    {
        if self.idx < self.chars.len() {
            self.chars[self.idx]
        } else {
            '\0'
        }
    }

    /// The character at the current position (same as `peek`).
    fn current_char(&self) -> (c: char)
        requires
            self.wf(),
        ensures
            c == char_at(self.s(), self.idx as int),
    {
        self.peek()
    }

    /// Advance past one character.
    fn advance(&mut self)
        requires
            old(self).wf(),
        ensures
            final(self).wf(),
            final(self).s() == old(self).s(),
            final(self).src == old(self).src,
            final(self).idx == if old(self).idx < old(self).s().len() {
                old(self).idx + 1
            } else {
                old(self).idx as int
            },
    {
        if self.idx < self.chars.len() {
            proof {
                lemma_byte_offset_step(self.chars@, self.idx as int);
                lemma_byte_offset_mono(self.chars@, self.idx + 1, self.chars@.len() as int);
                lemma_byte_offset_full(self.chars@);
            }
            self.pos = self.pos + char_len_utf8(self.chars[self.idx]);
            self.idx = self.idx + 1;
        }
    }

    /// Whether the cursor is at the beginning of a line.
    fn is_at_line_start(&self) -> (r: bool)
        requires
            self.wf(),
            self.idx < self.s().len(),
        ensures
            r == at_line_start(self.s(), self.idx as int),
    {
        self.idx == 0 || self.chars[self.idx - 1] == '\n'
    }

    fn is_at_end(&self) -> (r: bool)
        requires
            self.wf(),
        ensures
            r == (self.idx >= self.s().len()),
    {
        self.idx >= self.chars.len()
    }
}

} // verus!
