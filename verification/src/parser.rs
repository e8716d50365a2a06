//! Recursive-descent parser from tokens to the [`Mossfile`] tree.
//!
//! ```text
//! mossfile     = setting* task*
//! setting      = ("project" | "shell") "=" string NEWLINE
//! task         = "task" IDENT flag* ":" NEWLINE body
//! flag         = "parallel"
//!              | "watch"  "=" string
//!              | "ready"  "=" string
//!              | "deps"   "=" "[" ident_list "]"
//!              | "args"   "=" "[" ident_list "]"
//! body         = desc_line command_line* | command_line+
//! desc_line    = INDENT "desc" "=" string NEWLINE
//! command_line = INDENT IDENT NEWLINE        <- the IDENT holds the raw command
//! ident_list   = IDENT ("," IDENT)*
//! ```
//!
//! The finished tree is then validated: see [`crate::validate`].
use vstd::prelude::*;

use crate::ast::{
    Command, CommandView, Mossfile, MossfileView, Settings, SettingsView, Span, Task, TaskFlags,
    TaskFlagsView, TaskView, WatchConfig,
};
use crate::error::{is_boundary, location_of_offset, offset_to_location, ParseError, ParseErrorView};
use crate::lexer::{tokens_on_boundaries, tokens_view, Token, TokenKind, TokenKindView, TokenView};
use crate::text::{str_chars, utf8_len};
use crate::validate::{
    cycle_error, first_cycle_edge, has_dependency_cycle, reports_cycle_edge, spans_on_boundaries,
    structural_error, validate,
};

verus! {

// ── The grammar, as functions on the token sequence ──────────────────────────

/// The cursor after `advance`: it never moves past the last token.
pub open spec fn adv(t: Seq<TokenView>, c: int) -> int {
    if c + 1 < t.len() {
        c + 1
    } else {
        c
    }
}

/// The location of the token at `c`.
pub open spec fn loc_at(t: Seq<TokenView>, c: int, s: Seq<char>) -> crate::error::Location {
    location_of_offset(s, t[c].span.start as int)
}

/// The cursor after skipping `Newline` tokens.
pub open spec fn skip_newlines(t: Seq<TokenView>, c: int) -> int
    decreases t.len() - c,
{
    if 0 <= c && c + 1 < t.len() && t[c].kind == TokenKindView::Newline {
        skip_newlines(t, c + 1)
    } else {
        c
    }
}

/// `=` at `c`, or an error naming `flag`.
pub open spec fn expect_equals(t: Seq<TokenView>, c: int, flag: Seq<char>, s: Seq<char>) -> Result<
    int,
    ParseErrorView,
> {
    if t[c].kind == TokenKindView::Equals {
        Ok(adv(t, c))
    } else {
        Err(ParseErrorView::ExpectedEquals { flag, location: loc_at(t, c, s) })
    }
}

/// A string literal at `c`, or an error naming `flag`.
pub open spec fn expect_string(t: Seq<TokenView>, c: int, flag: Seq<char>, s: Seq<char>) -> Result<
    (Seq<char>, int),
    ParseErrorView,
> {
    match t[c].kind {
        TokenKindView::StringLit(v) => Ok((v, adv(t, c))),
        _ => Err(ParseErrorView::ExpectedStringValue { flag, location: loc_at(t, c, s) }),
    }
}

/// `= "<string>"` at `c`.
pub open spec fn expect_assignment(t: Seq<TokenView>, c: int, flag: Seq<char>, s: Seq<char>) -> Result<
    (Seq<char>, int),
    ParseErrorView,
> {
    match expect_equals(t, c, flag, s) {
        Err(e) => Err(e),
        Ok(c1) => expect_string(t, c1, flag, s),
    }
}

/// The rest of a `[…]` list from `c`: identifiers separated (or not) by commas, up to
/// `]`. A newline or the end of input before `]` is an error at the `[`; any other
/// token is an error where it stands.
pub open spec fn list_items(
    t: Seq<TokenView>,
    c: int,
    bracket: usize,
    acc: Seq<Seq<char>>,
    s: Seq<char>,
) -> Result<(Seq<Seq<char>>, int), ParseErrorView>
    decreases t.len() - c,
{
    if c < 0 || c >= t.len() {
        Err(ParseErrorView::UnclosedBracket { location: location_of_offset(s, bracket as int) })
    } else {
        match t[c].kind {
            TokenKindView::RBracket => Ok((acc, adv(t, c))),
            TokenKindView::Eof | TokenKindView::Newline => Err(
                ParseErrorView::UnclosedBracket { location: location_of_offset(s, bracket as int) },
            ),
            TokenKindView::Comma => if c + 1 < t.len() {
                list_items(t, c + 1, bracket, acc, s)
            } else {
                Err(ParseErrorView::UnclosedBracket { location: loc_at(t, c, s) })
            },
            TokenKindView::Ident(name) => if c + 1 < t.len() {
                list_items(t, c + 1, bracket, acc.push(name), s)
            } else {
                Err(ParseErrorView::UnclosedBracket { location: loc_at(t, c, s) })
            },
            _ => Err(ParseErrorView::UnclosedBracket { location: loc_at(t, c, s) }),
        }
    }
}

/// A `[ident, …]` list at `c`.
pub open spec fn ident_list(t: Seq<TokenView>, c: int, s: Seq<char>) -> Result<
    (Seq<Seq<char>>, int),
    ParseErrorView,
> {
    if t[c].kind != TokenKindView::LBracket {
        Err(ParseErrorView::UnclosedBracket { location: loc_at(t, c, s) })
    } else {
        list_items(t, adv(t, c), t[c].span.start, Seq::empty(), s)
    }
}

pub proof fn lemma_list_items_advances(
    t: Seq<TokenView>,
    c: int,
    bracket: usize,
    acc: Seq<Seq<char>>,
    s: Seq<char>,
)
    requires
        0 <= c,
    ensures
        list_items(t, c, bracket, acc, s) matches Ok((_, c2)) ==> c <= c2 < t.len(),
    decreases t.len() - c,
{
    if 0 <= c < t.len() {
        match t[c].kind {
            TokenKindView::Comma => if c + 1 < t.len() {
                lemma_list_items_advances(t, c + 1, bracket, acc, s);
            },
            TokenKindView::Ident(name) => if c + 1 < t.len() {
                lemma_list_items_advances(t, c + 1, bracket, acc.push(name), s);
            },
            _ => {},
        }
    }
}

pub proof fn lemma_skip_newlines(t: Seq<TokenView>, c: int)
    ensures
        0 <= c < t.len() ==> c <= skip_newlines(t, c) < t.len(),
        c < 0 || c >= t.len() ==> skip_newlines(t, c) == c,
    decreases t.len() - c,
{
    if 0 <= c && c + 1 < t.len() && t[c].kind == TokenKindView::Newline {
        lemma_skip_newlines(t, c + 1);
    }
}

/// The flags of a task header from `c` up to `:`, a newline or the end of input. A
/// repeated flag replaces the earlier one; any other token is an error.
pub open spec fn header_flags(t: Seq<TokenView>, c: int, flags: TaskFlagsView, s: Seq<char>) -> Result<
    (TaskFlagsView, int),
    ParseErrorView,
>
    decreases t.len() - c,
{
    if c < 0 || c >= t.len() {
        Ok((flags, c))
    } else {
        match t[c].kind {
            TokenKindView::Colon | TokenKindView::Newline | TokenKindView::Eof => Ok((flags, c)),
            TokenKindView::Parallel => if c + 1 < t.len() {
                header_flags(t, c + 1, TaskFlagsView { parallel: true, ..flags }, s)
            } else {
                Err(ParseErrorView::ExpectedColon { location: loc_at(t, c, s) })
            },
            TokenKindView::Watch => if c + 1 < t.len() {
                match expect_assignment(t, c + 1, seq!['w', 'a', 't', 'c', 'h'], s) {
                    Err(e) => Err(e),
                    Ok((glob, c2)) => header_flags(t, c2, TaskFlagsView { watch: Some(glob), ..flags }, s),
                }
            } else {
                Err(ParseErrorView::ExpectedColon { location: loc_at(t, c, s) })
            },
            TokenKindView::Ready => if c + 1 < t.len() {
                match expect_assignment(t, c + 1, seq!['r', 'e', 'a', 'd', 'y'], s) {
                    Err(e) => Err(e),
                    Ok((pattern, c2)) => header_flags(t, c2, TaskFlagsView { ready: Some(pattern), ..flags }, s),
                }
            } else {
                Err(ParseErrorView::ExpectedColon { location: loc_at(t, c, s) })
            },
            TokenKindView::Deps => if c + 1 < t.len() {
                match expect_equals(t, c + 1, seq!['d', 'e', 'p', 's'], s) {
                    Err(e) => Err(e),
                    Ok(c1) => match ident_list(t, c1, s) {
                        Err(e) => Err(e),
                        Ok((deps, c2)) => {
                            proof {
                                lemma_list_items_advances(t, adv(t, c1), t[c1].span.start, Seq::empty(), s);
                            }
                            header_flags(t, c2, TaskFlagsView { deps, ..flags }, s)
                        },
                    },
                }
            } else {
                Err(ParseErrorView::ExpectedColon { location: loc_at(t, c, s) })
            },
            TokenKindView::Args => if c + 1 < t.len() {
                match expect_equals(t, c + 1, seq!['a', 'r', 'g', 's'], s) {
                    Err(e) => Err(e),
                    Ok(c1) => match ident_list(t, c1, s) {
                        Err(e) => Err(e),
                        Ok((args, c2)) => {
                            proof {
                                lemma_list_items_advances(t, adv(t, c1), t[c1].span.start, Seq::empty(), s);
                            }
                            header_flags(t, c2, TaskFlagsView { args, ..flags }, s)
                        },
                    },
                }
            } else {
                Err(ParseErrorView::ExpectedColon { location: loc_at(t, c, s) })
            },
            _ => Err(ParseErrorView::ExpectedColon { location: loc_at(t, c, s) }),
        }
    }
}

pub proof fn lemma_header_flags_advances(t: Seq<TokenView>, c: int, flags: TaskFlagsView, s: Seq<char>)
    requires
        0 <= c < t.len(),
    ensures
        header_flags(t, c, flags, s) matches Ok((_, c2)) ==> c <= c2 < t.len(),
    decreases t.len() - c,
{
    if c + 1 < t.len() {
        match t[c].kind {
            TokenKindView::Parallel => {
                lemma_header_flags_advances(t, c + 1, TaskFlagsView { parallel: true, ..flags }, s);
            },
            TokenKindView::Watch => {
                if let Ok((glob, c2)) = expect_assignment(t, c + 1, seq!['w', 'a', 't', 'c', 'h'], s) {
                    lemma_header_flags_advances(t, c2, TaskFlagsView { watch: Some(glob), ..flags }, s);
                }
            },
            TokenKindView::Ready => {
                if let Ok((p, c2)) = expect_assignment(t, c + 1, seq!['r', 'e', 'a', 'd', 'y'], s) {
                    lemma_header_flags_advances(t, c2, TaskFlagsView { ready: Some(p), ..flags }, s);
                }
            },
            TokenKindView::Deps => {
                if let Ok(c1) = expect_equals(t, c + 1, seq!['d', 'e', 'p', 's'], s) {
                    if t[c1].kind == TokenKindView::LBracket {
                        lemma_list_items_advances(t, adv(t, c1), t[c1].span.start, Seq::empty(), s);
                    }
                    if let Ok((deps, c2)) = ident_list(t, c1, s) {
                        lemma_header_flags_advances(t, c2, TaskFlagsView { deps, ..flags }, s);
                    }
                }
            },
            TokenKindView::Args => {
                if let Ok(c1) = expect_equals(t, c + 1, seq!['a', 'r', 'g', 's'], s) {
                    if t[c1].kind == TokenKindView::LBracket {
                        lemma_list_items_advances(t, adv(t, c1), t[c1].span.start, Seq::empty(), s);
                    }
                    if let Ok((args, c2)) = ident_list(t, c1, s) {
                        lemma_header_flags_advances(t, c2, TaskFlagsView { args, ..flags }, s);
                    }
                }
            },
            _ => {},
        }
    }
}

/// What a task body has gathered: its description, its commands and the end of the
/// last command.
pub struct BodyView {
    pub description: Option<Seq<char>>,
    pub commands: Seq<CommandView>,
    pub end: usize,
}

/// The body lines from `c`: each starts with an `Indent`, followed by `desc = "…"` or a
/// command. A `desc` line is accepted only as the first line of the body of task
/// `name`. The body ends at a token that is not an `Indent`, or just after an `Indent`
/// that neither follows.
pub open spec fn body_lines(
    t: Seq<TokenView>,
    c: int,
    name: Seq<char>,
    body: BodyView,
    s: Seq<char>,
) -> Result<(BodyView, int), ParseErrorView>
    decreases t.len() - c,
{
    if c < 0 || c + 1 >= t.len() {
        Ok((body, c))
    } else {
        match t[c].kind {
            TokenKindView::Indent(_) => {
                let c1 = c + 1;
                match t[c1].kind {
                    TokenKindView::Desc => if body.description is Some || body.commands.len() > 0 {
                        Err(ParseErrorView::DescriptionNotFirst { name, location: loc_at(t, c1, s) })
                    } else {
                        match expect_assignment(t, adv(t, c1), seq!['d', 'e', 's', 'c'], s) {
                            Err(e) => Err(e),
                            Ok((d, c2)) => {
                                proof {
                                    lemma_skip_newlines(t, c2);
                                }
                                body_lines(
                                    t,
                                    skip_newlines(t, c2),
                                    name,
                                    BodyView { description: Some(d), ..body },
                                    s,
                                )
                            },
                        }
                    },
                    TokenKindView::Ident(raw) => {
                        let span = t[c1].span;
                        proof {
                            lemma_skip_newlines(t, adv(t, c1));
                        }
                        body_lines(
                            t,
                            skip_newlines(t, adv(t, c1)),
                            name,
                            BodyView {
                                commands: body.commands.push(CommandView { raw, span }),
                                end: span.end,
                                ..body
                            },
                            s,
                        )
                    },
                    _ => Ok((body, c1)),
                }
            },
            _ => Ok((body, c)),
        }
    }
}

pub proof fn lemma_body_lines_advances(
    t: Seq<TokenView>,
    c: int,
    name: Seq<char>,
    body: BodyView,
    s: Seq<char>,
)
    requires
        0 <= c < t.len(),
    ensures
        body_lines(t, c, name, body, s) matches Ok((_, c2)) ==> c <= c2 < t.len(),
    decreases t.len() - c,
{
    if c + 1 < t.len() {
        if let TokenKindView::Indent(_) = t[c].kind {
            let c1 = c + 1;
            match t[c1].kind {
                TokenKindView::Desc => {
                    if let Ok((d, c2)) = expect_assignment(t, adv(t, c1), seq!['d', 'e', 's', 'c'], s) {
                        lemma_skip_newlines(t, c2);
                        lemma_body_lines_advances(
                            t,
                            skip_newlines(t, c2),
                            name,
                            BodyView { description: Some(d), ..body },
                            s,
                        );
                    }
                },
                TokenKindView::Ident(raw) => {
                    let span = t[c1].span;
                    lemma_skip_newlines(t, adv(t, c1));
                    lemma_body_lines_advances(
                        t,
                        skip_newlines(t, adv(t, c1)),
                        name,
                        BodyView {
                            commands: body.commands.push(CommandView { raw, span }),
                            end: span.end,
                            ..body
                        },
                        s,
                    );
                },
                _ => {},
            }
        }
    }
}

/// A task declaration at `c` (which holds `task`).
#[verifier::opaque]
pub open spec fn task_decl(t: Seq<TokenView>, c: int, s: Seq<char>) -> Result<
    (TaskView, int),
    ParseErrorView,
> {
    let task_start = t[c].span.start;
    let c1 = adv(t, c);
    match t[c1].kind {
        TokenKindView::Ident(name) => {
            let no_flags = TaskFlagsView {
                parallel: false,
                watch: None,
                ready: None,
                deps: Seq::empty(),
                args: Seq::empty(),
            };
            match header_flags(t, adv(t, c1), no_flags, s) {
                Err(e) => Err(e),
                Ok((flags, c3)) => if t[c3].kind != TokenKindView::Colon {
                    Err(ParseErrorView::ExpectedColon { location: loc_at(t, c3, s) })
                } else {
                    let c4 = skip_newlines(t, adv(t, c3));
                    let empty = BodyView {
                        description: None,
                        commands: Seq::empty(),
                        end: t[c4].span.start,
                    };
                    match body_lines(t, c4, name, empty, s) {
                        Err(e) => Err(e),
                        Ok((body, c5)) => if body.commands.len() == 0 && body.description is None {
                            Err(
                                ParseErrorView::EmptyTaskBody {
                                    name,
                                    location: location_of_offset(s, task_start as int),
                                },
                            )
                        } else {
                            Ok(
                                (
                                    TaskView {
                                        name,
                                        description: body.description,
                                        flags,
                                        commands: body.commands,
                                        span: Span { start: task_start, end: body.end },
                                    },
                                    c5,
                                ),
                            )
                        },
                    }
                },
            }
        },
        _ => Err(ParseErrorView::ExpectedTaskName { location: loc_at(t, c1, s) }),
    }
}

pub proof fn lemma_task_decl_advances(t: Seq<TokenView>, c: int, s: Seq<char>)
    requires
        0 <= c < t.len(),
        t[c].kind == TokenKindView::Task,
    ensures
        task_decl(t, c, s) matches Ok((_, c2)) ==> c < c2 < t.len(),
{
    reveal(task_decl);
    let c1 = adv(t, c);
    if let TokenKindView::Ident(name) = t[c1].kind {
        let no_flags = TaskFlagsView {
            parallel: false,
            watch: None,
            ready: None,
            deps: Seq::empty(),
            args: Seq::empty(),
        };
        lemma_header_flags_advances(t, adv(t, c1), no_flags, s);
        if let Ok((flags, c3)) = header_flags(t, adv(t, c1), no_flags, s) {
            lemma_skip_newlines(t, adv(t, c3));
            let c4 = skip_newlines(t, adv(t, c3));
            let empty = BodyView { description: None, commands: Seq::empty(), end: t[c4].span.start };
            lemma_body_lines_advances(t, c4, name, empty, s);
        }
    }
}

/// The settings from `c`: `project = "…"` and `shell = "…"` lines, in any order; a
/// later one replaces an earlier one.
pub open spec fn settings_lines(t: Seq<TokenView>, c: int, settings: SettingsView, s: Seq<char>) -> Result<
    (SettingsView, int),
    ParseErrorView,
>
    decreases t.len() - c,
{
    let c0 = skip_newlines(t, c);
    if c0 < 0 || c0 + 1 >= t.len() {
        Ok((settings, c0))
    } else {
        match t[c0].kind {
            TokenKindView::Project => match expect_assignment(
                t,
                c0 + 1,
                seq!['p', 'r', 'o', 'j', 'e', 'c', 't'],
                s,
            ) {
                Err(e) => Err(e),
                Ok((v, c1)) => {
                    proof {
                        lemma_skip_newlines(t, c);
                        lemma_skip_newlines(t, c1);
                    }
                    settings_lines(t, skip_newlines(t, c1), SettingsView { project: Some(v), ..settings }, s)
                },
            },
            TokenKindView::Shell => match expect_assignment(
                t,
                c0 + 1,
                seq!['s', 'h', 'e', 'l', 'l'],
                s,
            ) {
                Err(e) => Err(e),
                Ok((v, c1)) => {
                    proof {
                        lemma_skip_newlines(t, c);
                        lemma_skip_newlines(t, c1);
                    }
                    settings_lines(t, skip_newlines(t, c1), SettingsView { shell: Some(v), ..settings }, s)
                },
            },
            _ => Ok((settings, c0)),
        }
    }
}

/// The task declarations from `c` to the end of input.
#[verifier::opaque]
pub open spec fn task_decls(t: Seq<TokenView>, c: int, tasks: Seq<TaskView>, s: Seq<char>) -> Result<
    Seq<TaskView>,
    ParseErrorView,
>
    decreases t.len() - c,
{
    if c < 0 || c >= t.len() || t[c].kind == TokenKindView::Eof {
        Ok(tasks)
    } else {
        let c0 = skip_newlines(t, c);
        if c0 < 0 || c0 >= t.len() || t[c0].kind == TokenKindView::Eof {
            Ok(tasks)
        } else if t[c0].kind == TokenKindView::Task {
            match task_decl(t, c0, s) {
                Err(e) => Err(e),
                Ok((task, c1)) => {
                    proof {
                        lemma_skip_newlines(t, c);
                        lemma_task_decl_advances(t, c0, s);
                    }
                    task_decls(t, c1, tasks.push(task), s)
                },
            }
        } else {
            Err(ParseErrorView::ExpectedTaskName { location: loc_at(t, c0, s) })
        }
    }
}

pub proof fn lemma_task_decls_end(t: Seq<TokenView>, c: int, tasks: Seq<TaskView>, s: Seq<char>)
    requires
        0 <= c < t.len(),
        t[c].kind == TokenKindView::Eof,
    ensures
        task_decls(t, c, tasks, s) == Ok::<Seq<TaskView>, ParseErrorView>(tasks),
{
    reveal(task_decls);
}

pub proof fn lemma_task_decls_step(t: Seq<TokenView>, c: int, tasks: Seq<TaskView>, s: Seq<char>)
    requires
        0 <= c < t.len(),
        t[c].kind != TokenKindView::Eof,
    ensures
        task_decls(t, c, tasks, s) == ({
            let c0 = skip_newlines(t, c);
            if c0 < 0 || c0 >= t.len() || t[c0].kind == TokenKindView::Eof {
                Ok(tasks)
            } else if t[c0].kind == TokenKindView::Task {
                match task_decl(t, c0, s) {
                    Err(e) => Err(e),
                    Ok((task, c1)) => task_decls(t, c1, tasks.push(task), s),
                }
            } else {
                Err(ParseErrorView::ExpectedTaskName { location: loc_at(t, c0, s) })
            }
        }),
{
    reveal(task_decls);
}

/// A task body has at least one command or a description.
pub open spec fn body_nonempty(task: TaskView) -> bool {
    task.commands.len() > 0 || task.description is Some
}

pub proof fn lemma_task_decl_nonempty(t: Seq<TokenView>, c: int, s: Seq<char>)
    ensures
        task_decl(t, c, s) matches Ok((task, _)) ==> body_nonempty(task),
{
    reveal(task_decl);
}

/// Every declared task has a body.
pub proof fn lemma_task_decls_nonempty(t: Seq<TokenView>, c: int, tasks: Seq<TaskView>, s: Seq<char>)
    requires
        forall|k: int| 0 <= k < tasks.len() ==> body_nonempty(#[trigger] tasks[k]),
    ensures
        task_decls(t, c, tasks, s) matches Ok(ts) ==> forall|k: int| 0 <= k < ts.len() ==> body_nonempty(#[trigger] ts[k]),
    decreases t.len() - c,
{
    if 0 <= c < t.len() && t[c].kind != TokenKindView::Eof {
        lemma_task_decls_step(t, c, tasks, s);
        let c0 = skip_newlines(t, c);
        lemma_skip_newlines(t, c);
        if 0 <= c0 < t.len() && t[c0].kind == TokenKindView::Task {
            lemma_task_decl_nonempty(t, c0, s);
            lemma_task_decl_advances(t, c0, s);
            if let Ok((task, c1)) = task_decl(t, c0, s) {
                assert forall|k: int| 0 <= k < tasks.push(task).len() implies body_nonempty(#[trigger] tasks.push(task)[k]) by {
                    if k < tasks.len() {
                        assert(tasks.push(task)[k] == tasks[k]);
                    }
                }
                lemma_task_decls_nonempty(t, c1, tasks.push(task), s);
            }
        }
    } else {
        reveal(task_decls);
    }
}

/// The tree that the tokens describe, before validation.
pub open spec fn parse_tree(t: Seq<TokenView>, s: Seq<char>) -> Result<MossfileView, ParseErrorView> {
    match settings_lines(t, 0, SettingsView { project: None, shell: None }, s) {
        Err(e) => Err(e),
        Ok((settings, c)) => match task_decls(t, c, Seq::empty(), s) {
            Err(e) => Err(e),
            Ok(tasks) => Ok(MossfileView { settings, tasks }),
        },
    }
}

/// `r` is the outcome of validating `tree`: the tree itself if it passes, the first
/// structural error, or a dependency edge that lies on a cycle.
pub open spec fn parse_outcome(
    r: Result<Mossfile, ParseError>,
    tree: Result<MossfileView, ParseErrorView>,
    s: Seq<char>,
) -> bool {
    match tree {
        Err(e) => r matches Err(x) && x@ == e,
        Ok(mf) => match structural_error(mf.tasks, s) {
            Some(e) => r matches Err(x) && x@ == e,
            None => if has_dependency_cycle(mf.tasks) {
                r matches Err(x) && reports_cycle_edge(mf.tasks, x@) && (first_cycle_edge(
                    mf.tasks,
                ) matches Some((a, k)) && x@ == cycle_error(mf.tasks, a, k))
            } else {
                r matches Ok(m) && m@ == mf
            },
        },
    }
}

/// Tokens the parser can run on: there is at least one, and the last is `Eof`.
pub open spec fn tokens_well_formed(t: Seq<TokenView>) -> bool {
    t.len() > 0 && t.last().kind == TokenKindView::Eof
}



// ── The parser ───────────────────────────────────────────────────────────────

/// The task's own span and the spans of its commands start on character boundaries.
pub open spec fn task_spans_ok(task: TaskView, s: Seq<char>) -> bool {
    &&& is_boundary(s, task.span.start as int)
    &&& forall|k: int| 0 <= k < task.commands.len() ==> is_boundary(s, #[trigger] task.commands[k].span.start as int)
}

pub struct Parser {
    tokens: Vec<Token>,
    /// Index of the next token to inspect.
    cursor: usize,
    /// The source, kept to turn byte offsets into locations.
    src: String,
}

impl Parser {
    /// The tokens being parsed.
    pub closed spec fn token_views(&self) -> Seq<TokenView> {
        tokens_view(self.tokens@)
    }

    /// The source the tokens came from.
    pub closed spec fn source(&self) -> Seq<char> {
        self.src@
    }

    /// The parser has not consumed anything yet.
    pub closed spec fn fresh(&self) -> bool {
        self.cursor == 0
    }

    closed spec fn t(&self) -> Seq<TokenView> {
        tokens_view(self.tokens@)
    }

    closed spec fn wf(&self) -> bool {
        &&& tokens_well_formed(self.t())
        &&& self.cursor < self.t().len()
        &&& tokens_on_boundaries(self.t(), self.src@)
        &&& utf8_len(self.src@) < usize::MAX
    }

    pub fn new(tokens: Vec<Token>, src: &str) -> (p: Self)
        ensures
            p.token_views() == tokens_view(tokens@),
            p.source() == src@,
            p.fresh(),
    {
        Self { tokens, cursor: 0, src: src.to_owned() }
    }

    /// Parse all tokens into a [`Mossfile`] and validate it.
    pub fn parse(self) -> (r: Result<Mossfile, ParseError>)
        requires
            tokens_well_formed(self.token_views()),
            tokens_on_boundaries(self.token_views(), self.source()),
            utf8_len(self.source()) < usize::MAX,
            self.fresh(),
        ensures
            parse_outcome(r, parse_tree(self.token_views(), self.source()), self.source()),
    {
        let mut this = self;
        let ghost t = this.t();
        let ghost s = this.src@;
        let settings = this.parse_settings()?;
        let mut tasks: Vec<Task> = Vec::new();
        let ghost c_tasks = this.cursor as int;
        assert(tasks@.map_values(|x: Task| x@) =~= Seq::<TaskView>::empty());
        loop
            invariant_except_break
                task_decls(t, c_tasks, Seq::empty(), s) == task_decls(
                    t,
                    this.cursor as int,
                    tasks@.map_values(|x: Task| x@),
                    s,
                ),
            invariant
                this.wf(),
                this.t() == t,
                this.src@ == s,
                self.token_views() == t,
                self.source() == s,
                settings_lines(t, 0, SettingsView { project: None, shell: None }, s) == Ok::<
                    (SettingsView, int),
                    ParseErrorView,
                >((settings@, c_tasks)),
                parse_tree(t, s) == match task_decls(t, c_tasks, Seq::empty(), s) {
                    Err(e) => Err(e),
                    Ok(ts) => Ok(MossfileView { settings: settings@, tasks: ts }),
                },
                forall|k: int| 0 <= k < tasks@.len() ==> task_spans_ok(#[trigger] tasks@[k]@, s),
            ensures
                task_decls(t, c_tasks, Seq::empty(), s) == Ok::<Seq<TaskView>, ParseErrorView>(
                    tasks@.map_values(|x: Task| x@),
                ),
            decreases t.len() - this.cursor,
        {
            let ghost c = this.cursor as int;
            let ghost acc = tasks@.map_values(|x: Task| x@);
            if this.is_at_end() {
                proof {
                    lemma_task_decls_end(t, c, acc, s);
                }
                break;
            }
            proof {
                lemma_task_decls_step(t, c, acc, s);
            }
            this.skip_newlines();
            if this.is_at_end() {
                break;
            }
            match this.peek_kind() {
                TokenKind::Task => {
                    proof {
                        lemma_skip_newlines(t, c);
                        lemma_task_decl_advances(t, this.cursor as int, s);
                    }
                    let task = this.parse_task()?;
                    tasks.push(task);
                    assert(tasks@.map_values(|x: Task| x@) =~= acc.push(task@));
                },
                _ => {
                    let span = this.peek().span;
                    let location = offset_to_location(this.src.as_str(), span.start);
                    return Err(ParseError::ExpectedTaskName { location });
                },
            }
        }
        let mossfile = Mossfile { settings, tasks };
        assert(mossfile@.tasks == tasks@.map_values(|x: Task| x@));
        assert(spans_on_boundaries(mossfile@.tasks, s)) by {
            assert forall|i: int| 0 <= i < mossfile@.tasks.len() implies task_spans_ok(mossfile@.tasks[i], s) by {
                assert(task_spans_ok(tasks@[i]@, s));
            }
        }
        let chars = str_chars(this.src.as_str());
        validate(&mossfile, &chars)?;
        Ok(mossfile)
    }

    /// Parse zero or more top-level `key = "value"` settings.
    fn parse_settings(&mut self) -> (r: Result<Settings, ParseError>)
        requires
            old(self).wf(),
        ensures
            final(self).wf(),
            final(self).t() == old(self).t(),
            final(self).src == old(self).src,
            match settings_lines(old(self).t(), old(self).cursor as int, SettingsView { project: None, shell: None }, old(self).src@) {
                Ok((st, c)) => r matches Ok(x) && x@ == st && final(self).cursor == c,
                Err(e) => r matches Err(x) && x@ == e,
            },
    {
        let ghost t = self.t();
        let ghost s = self.src@;
        let ghost c0 = self.cursor as int;
        let mut settings = Settings { project: None, shell: None };
        proof {
            reveal_strlit("project");
            reveal_strlit("shell");
            assert("project"@ =~= seq!['p', 'r', 'o', 'j', 'e', 'c', 't']);
            assert("shell"@ =~= seq!['s', 'h', 'e', 'l', 'l']);
        }
        loop
            invariant_except_break
                settings_lines(t, c0, SettingsView { project: None, shell: None }, s) == settings_lines(
                    t,
                    self.cursor as int,
                    settings@,
                    s,
                ),
            invariant
                self.wf(),
                self.t() == t,
                t == old(self).t(),
                c0 == old(self).cursor,
                self.src == old(self).src,
                self.src@ == s,
                s == old(self).src@,
                "project"@ == seq!['p', 'r', 'o', 'j', 'e', 'c', 't'],
                "shell"@ == seq!['s', 'h', 'e', 'l', 'l'],
            ensures
                settings_lines(t, c0, SettingsView { project: None, shell: None }, s) == Ok::<
                    (SettingsView, int),
                    ParseErrorView,
                >((settings@, self.cursor as int)),
            decreases t.len() - self.cursor,
        {
            let ghost c = self.cursor as int;
            self.skip_newlines();
            proof {
                lemma_skip_newlines(t, c);
            }
            match self.peek_kind() {
                TokenKind::Project => {
                    self.advance();
                    self.expect_equals("project")?;
                    let v = self.expect_string("project")?;
                    settings.project = Some(v);
                    self.skip_newlines();
                },
                TokenKind::Shell => {
                    self.advance();
                    self.expect_equals("shell")?;
                    let v = self.expect_string("shell")?;
                    settings.shell = Some(v);
                    self.skip_newlines();
                },
                _ => {
                    break;
                },
            }
        }
        Ok(settings)
    }

    /// Parse one `task <name> [flags…] : <body>` block.
    fn parse_task(&mut self) -> (r: Result<Task, ParseError>)
        requires
            old(self).wf(),
            old(self).cursor + 1 < old(self).t().len(),
        ensures
            final(self).wf(),
            final(self).t() == old(self).t(),
            final(self).src == old(self).src,
            match task_decl(old(self).t(), old(self).cursor as int, old(self).src@) {
                Ok((task, c)) => r matches Ok(x) && x@ == task && final(self).cursor == c
                    && task_spans_ok(task, old(self).src@),
                Err(e) => r matches Err(x) && x@ == e,
            },
    {
        let ghost t = self.t();
        let ghost s = self.src@;
        proof {
            reveal(task_decl);
        }
        let task_start = self.peek().span.start;
        self.advance();
        let name = match self.peek_kind() {
            TokenKind::Ident(n) => {
                let n = n.clone();
                self.advance();
                n
            },
            _ => {
                let location = offset_to_location(self.src.as_str(), self.peek().span.start);
                return Err(ParseError::ExpectedTaskName { location });
            },
        };
        let flags = self.parse_flags(&name)?;
        if !matches!(self.peek_kind(), TokenKind::Colon) {
            let location = offset_to_location(self.src.as_str(), self.peek().span.start);
            return Err(ParseError::ExpectedColon { location });
        }
        self.advance();
        self.skip_newlines();
        let (description, commands, body_end) = self.parse_body(&name)?;
        if commands.len() == 0 && description.is_none() {
            let location = offset_to_location(self.src.as_str(), task_start);
            return Err(ParseError::EmptyTaskBody { name, location });
        }
        Ok(Task { name, description, flags, commands, span: Span::new(task_start, body_end) })
    }

    /// Parse the flags of a task header (everything between the name and `:`).
    fn parse_flags(&mut self, task_name: &String) -> (r: Result<TaskFlags, ParseError>)
        requires
            old(self).wf(),
        ensures
            final(self).wf(),
            final(self).t() == old(self).t(),
            final(self).src == old(self).src,
            match header_flags(
                old(self).t(),
                old(self).cursor as int,
                TaskFlagsView {
                    parallel: false,
                    watch: None,
                    ready: None,
                    deps: Seq::empty(),
                    args: Seq::empty(),
                },
                old(self).src@,
            ) {
                Ok((f, c)) => r matches Ok(x) && x@ == f && final(self).cursor == c,
                Err(e) => r matches Err(x) && x@ == e,
            },
    {
        let ghost t = self.t();
        let ghost s = self.src@;
        let ghost c0 = self.cursor as int;
        let mut flags = TaskFlags {
            parallel: false,
            watch: None,
            ready: None,
            deps: Vec::new(),
            args: Vec::new(),
        };
        proof {
            reveal_strlit("watch");
            reveal_strlit("ready");
            reveal_strlit("deps");
            reveal_strlit("args");
            assert("watch"@ =~= seq!['w', 'a', 't', 'c', 'h']);
            assert("ready"@ =~= seq!['r', 'e', 'a', 'd', 'y']);
            assert("deps"@ =~= seq!['d', 'e', 'p', 's']);
            assert("args"@ =~= seq!['a', 'r', 'g', 's']);
            assert(flags@.deps =~= Seq::<Seq<char>>::empty());
            assert(flags@.args =~= Seq::<Seq<char>>::empty());
        }
        loop
            invariant_except_break
                header_flags(
                    t,
                    c0,
                    TaskFlagsView {
                        parallel: false,
                        watch: None,
                        ready: None,
                        deps: Seq::empty(),
                        args: Seq::empty(),
                    },
                    s,
                ) == header_flags(t, self.cursor as int, flags@, s),
            invariant
                self.wf(),
                self.t() == t,
                t == old(self).t(),
                c0 == old(self).cursor,
                self.src == old(self).src,
                self.src@ == s,
                s == old(self).src@,
                c0 <= self.cursor,
                "watch"@ == seq!['w', 'a', 't', 'c', 'h'],
                "ready"@ == seq!['r', 'e', 'a', 'd', 'y'],
                "deps"@ == seq!['d', 'e', 'p', 's'],
                "args"@ == seq!['a', 'r', 'g', 's'],
            ensures
                header_flags(
                    t,
                    c0,
                    TaskFlagsView {
                        parallel: false,
                        watch: None,
                        ready: None,
                        deps: Seq::empty(),
                        args: Seq::empty(),
                    },
                    s,
                ) == Ok::<(TaskFlagsView, int), ParseErrorView>((flags@, self.cursor as int)),
            decreases t.len() - self.cursor,
        {
            let ghost c = self.cursor as int;
            match self.peek_kind() {
                TokenKind::Colon | TokenKind::Newline | TokenKind::Eof => {
                    break;
                },
                TokenKind::Parallel => {
                    self.advance();
                    flags.parallel = true;
                },
                TokenKind::Watch => {
                    self.advance();
                    self.expect_equals("watch")?;
                    let glob = self.expect_string("watch")?;
                    flags.watch = Some(WatchConfig { glob });
                },
                TokenKind::Ready => {
                    self.advance();
                    self.expect_equals("ready")?;
                    let pattern = self.expect_string("ready")?;
                    flags.ready = Some(pattern);
                },
                TokenKind::Deps => {
                    self.advance();
                    self.expect_equals("deps")?;
                    proof {
                        lemma_list_items_advances(t, adv(t, self.cursor as int), t[self.cursor as int].span.start, Seq::empty(), s);
                    }
                    flags.deps = self.parse_ident_list()?;
                },
                TokenKind::Args => {
                    self.advance();
                    self.expect_equals("args")?;
                    proof {
                        lemma_list_items_advances(t, adv(t, self.cursor as int), t[self.cursor as int].span.start, Seq::empty(), s);
                    }
                    flags.args = self.parse_ident_list()?;
                },
                _ => {
                    let location = offset_to_location(self.src.as_str(), self.peek().span.start);
                    return Err(ParseError::ExpectedColon { location });
                },
            }
        }
        let _ = task_name;
        Ok(flags)
    }

    /// Parse the indented body of a task: its description, its commands and the end
    /// offset of the last command.
    fn parse_body(&mut self, task_name: &String) -> (r: Result<(Option<String>, Vec<Command>, usize), ParseError>)
        requires
            old(self).wf(),
        ensures
            final(self).wf(),
            final(self).t() == old(self).t(),
            final(self).src == old(self).src,
            match body_lines(
                old(self).t(),
                old(self).cursor as int,
                task_name@,
                BodyView {
                    description: None,
                    commands: Seq::empty(),
                    end: old(self).t()[old(self).cursor as int].span.start,
                },
                old(self).src@,
            ) {
                Ok((b, c)) => r matches Ok(x) && crate::ast::opt_string_view(x.0) == b.description
                    && x.1@.map_values(|cm: Command| cm@) == b.commands && x.2 == b.end
                    && final(self).cursor == c && forall|k: int|
                    0 <= k < b.commands.len() ==> is_boundary(old(self).src@, #[trigger] b.commands[k].span.start as int),
                Err(e) => r matches Err(x) && x@ == e,
            },
    {
        let ghost t = self.t();
        let ghost s = self.src@;
        let ghost c0 = self.cursor as int;
        let mut description: Option<String> = None;
        let mut commands: Vec<Command> = Vec::new();
        let mut end = self.peek().span.start;
        proof {
            reveal_strlit("desc");
            assert("desc"@ =~= seq!['d', 'e', 's', 'c']);
            assert(commands@.map_values(|cm: Command| cm@) =~= Seq::<CommandView>::empty());
        }
        loop
            invariant_except_break
                body_lines(
                    t,
                    c0,
                    task_name@,
                    BodyView { description: None, commands: Seq::empty(), end: t[c0].span.start },
                    s,
                ) == body_lines(
                    t,
                    self.cursor as int,
                    task_name@,
                    BodyView {
                        description: crate::ast::opt_string_view(description),
                        commands: commands@.map_values(|cm: Command| cm@),
                        end,
                    },
                    s,
                ),
            invariant
                self.wf(),
                self.t() == t,
                t == old(self).t(),
                c0 == old(self).cursor,
                self.src == old(self).src,
                self.src@ == s,
                s == old(self).src@,
                "desc"@ == seq!['d', 'e', 's', 'c'],
                forall|k: int| 0 <= k < commands@.len() ==> is_boundary(s, #[trigger] commands@[k].span.start as int),
            ensures
                body_lines(
                    t,
                    c0,
                    task_name@,
                    BodyView { description: None, commands: Seq::empty(), end: t[c0].span.start },
                    s,
                ) == Ok::<(BodyView, int), ParseErrorView>((BodyView {
                    description: crate::ast::opt_string_view(description),
                    commands: commands@.map_values(|cm: Command| cm@),
                    end,
                }, self.cursor as int)),
            decreases t.len() - self.cursor,
        {
            let ghost c = self.cursor as int;
            let ghost acc = commands@.map_values(|cm: Command| cm@);
            if !matches!(self.peek_kind(), TokenKind::Indent(_)) {
                break;
            }
            self.advance();
            match self.peek_kind() {
                TokenKind::Desc => {
                    if description.is_some() || commands.len() > 0 {
                        let location = offset_to_location(self.src.as_str(), self.peek().span.start);
                        return Err(ParseError::DescriptionNotFirst { name: task_name.clone(), location });
                    }
                    self.advance();
                    self.expect_equals("desc")?;
                    let d = self.expect_string("desc")?;
                    description = Some(d);
                    self.skip_newlines();
                },
                TokenKind::Ident(raw) => {
                    let raw = raw.clone();
                    let cmd_span = self.peek().span;
                    self.advance();
                    end = cmd_span.end;
                    self.check_placeholders(task_name, &raw, cmd_span.start)?;
                    commands.push(Command { raw, span: cmd_span });
                    assert(commands@.map_values(|cm: Command| cm@) =~= acc.push(commands@.last()@));
                    self.skip_newlines();
                },
                _ => {
                    break;
                },
            }
        }
        Ok((description, commands, end))
    }

    /// Placeholders are checked once the whole tree is built (see [`validate`]),
    /// since the task's `args` must be known first; this inline check accepts all.
    fn check_placeholders(&self, _task_name: &String, _cmd: &String, _offset: usize) -> (r: Result<
        (),
        ParseError,
    >)
        ensures
            r is Ok,
    {
        Ok(())
    }

    /// Parse `[ IDENT (, IDENT)* ]` and return the identifiers.
    fn parse_ident_list(&mut self) -> (r: Result<Vec<String>, ParseError>)
        requires
            old(self).wf(),
        ensures
            final(self).wf(),
            final(self).t() == old(self).t(),
            final(self).src == old(self).src,
            match ident_list(old(self).t(), old(self).cursor as int, old(self).src@) {
                Ok((items, c)) => r matches Ok(x) && crate::ast::strings_view(x@) == items
                    && final(self).cursor == c,
                Err(e) => r matches Err(x) && x@ == e,
            },
    {
        let ghost t = self.t();
        let ghost s = self.src@;
        if !matches!(self.peek_kind(), TokenKind::LBracket) {
            let location = offset_to_location(self.src.as_str(), self.peek().span.start);
            return Err(ParseError::UnclosedBracket { location });
        }
        let bracket_start = self.peek().span.start;
        let ghost cb = self.cursor as int;
        self.advance();
        let mut items: Vec<String> = Vec::new();
        assert(crate::ast::strings_view(items@) =~= Seq::<Seq<char>>::empty());
        loop
            invariant_except_break
                list_items(t, adv(t, cb), bracket_start, Seq::empty(), s) == list_items(
                    t,
                    self.cursor as int,
                    bracket_start,
                    crate::ast::strings_view(items@),
                    s,
                ),
            invariant
                self.wf(),
                self.t() == t,
                t == old(self).t(),
                cb == old(self).cursor,
                t[cb].kind == TokenKindView::LBracket,
                bracket_start == t[cb].span.start,
                self.src == old(self).src,
                self.src@ == s,
                s == old(self).src@,
                is_boundary(s, bracket_start as int),
            ensures
                list_items(t, adv(t, cb), bracket_start, Seq::empty(), s) == Ok::<(Seq<Seq<char>>, int), ParseErrorView>(
                    (crate::ast::strings_view(items@), self.cursor as int)),
            decreases t.len() - self.cursor,
        {
            let ghost acc = crate::ast::strings_view(items@);
            match self.peek_kind() {
                TokenKind::RBracket => {
                    self.advance();
                    break;
                },
                TokenKind::Comma => {
                    self.advance();
                },
                TokenKind::Ident(name) => {
                    let name = name.clone();
                    self.advance();
                    items.push(name);
                    assert(crate::ast::strings_view(items@) =~= acc.push(items@.last()@));
                },
                TokenKind::Eof | TokenKind::Newline => {
                    let location = offset_to_location(self.src.as_str(), bracket_start);
                    return Err(ParseError::UnclosedBracket { location });
                },
                _ => {
                    let location = offset_to_location(self.src.as_str(), self.peek().span.start);
                    return Err(ParseError::UnclosedBracket { location });
                },
            }
        }
        Ok(items)
    }

    /// Consume an `=` token or return a descriptive error.
    fn expect_equals(&mut self, flag: &str) -> (r: Result<(), ParseError>)
        requires
            old(self).wf(),
        ensures
            final(self).wf(),
            final(self).t() == old(self).t(),
            final(self).src == old(self).src,
            match expect_equals(old(self).t(), old(self).cursor as int, flag@, old(self).src@) {
                Ok(c) => r is Ok && final(self).cursor == c,
                Err(e) => r matches Err(x) && x@ == e,
            },
    {
        if matches!(self.peek_kind(), TokenKind::Equals) {
            self.advance();
            Ok(())
        } else {
            let location = offset_to_location(self.src.as_str(), self.peek().span.start);
            Err(ParseError::ExpectedEquals { flag: flag.to_owned(), location })
        }
    }

    /// Consume a string literal token or return a descriptive error.
    fn expect_string(&mut self, flag: &str) -> (r: Result<String, ParseError>)
        requires
            old(self).wf(),
        ensures
            final(self).wf(),
            final(self).t() == old(self).t(),
            final(self).src == old(self).src,
            match expect_string(old(self).t(), old(self).cursor as int, flag@, old(self).src@) {
                Ok((v, c)) => r matches Ok(x) && x@ == v && final(self).cursor == c,
                Err(e) => r matches Err(x) && x@ == e,
            },
    {
        match self.peek_kind() {
            TokenKind::StringLit(v) => {
                let v = v.clone();
                self.advance();
                Ok(v)
            },
            _ => {
                let location = offset_to_location(self.src.as_str(), self.peek().span.start);
                Err(ParseError::ExpectedStringValue { flag: flag.to_owned(), location })
            },
        }
    }

    /// Skip any number of consecutive `Newline` tokens.
    fn skip_newlines(&mut self)
        requires
            old(self).wf(),
        ensures
            final(self).wf(),
            final(self).t() == old(self).t(),
            final(self).src == old(self).src,
            final(self).cursor == skip_newlines(old(self).t(), old(self).cursor as int),
            final(self).cursor >= old(self).cursor,
    {
        let ghost t = self.t();
        let ghost c0 = self.cursor as int;
        proof {
            lemma_skip_newlines(t, c0);
        }
        while matches!(self.peek_kind(), TokenKind::Newline)
            invariant
                self.wf(),
                self.t() == t,
                self.src == old(self).src,
                t == old(self).t(),
                c0 == old(self).cursor,
                skip_newlines(t, c0) == skip_newlines(t, self.cursor as int),
            decreases t.len() - self.cursor,
        {
            self.advance();
        }
    }

    fn advance(&mut self)
        requires
            old(self).wf(),
        ensures
            final(self).wf(),
            final(self).t() == old(self).t(),
            final(self).src == old(self).src,
            final(self).cursor == adv(old(self).t(), old(self).cursor as int),
    {
        if self.cursor < self.tokens.len() - 1 {
            self.cursor += 1;
        }
    }

    fn peek(&self) -> (tok: &Token)
        requires
            self.wf(),
        ensures
            tok@ == self.t()[self.cursor as int],
    {
        &self.tokens[self.cursor]
    }

    fn peek_kind(&self) -> (k: &TokenKind)
        requires
            self.wf(),
        ensures
            k@ == self.t()[self.cursor as int].kind,
    {
        &self.tokens[self.cursor].kind
    }

    fn is_at_end(&self) -> (r: bool)
        requires
            self.wf(),
        ensures
            r == (self.t()[self.cursor as int].kind == TokenKindView::Eof),
    {
        matches!(self.peek_kind(), TokenKind::Eof)
    }
}

} // verus!
