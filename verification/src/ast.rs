//! The tree that a successful parse of a Mossfile produces, and its mathematical view.
//!
//! ```text
//! Mossfile
//! └── tasks: Task*
//!     ├── name, description, flags
//!     └── commands: Command*
//! ```
//!
//! Every node records the byte range of the source it came from.
use vstd::prelude::*;

verus! {

/// A half-open byte range `[start, end)` inside the source string.
#[derive(Debug, Clone, Copy, PartialEq, Eq)]
pub struct Span {
    pub start: usize,
    pub end: usize,
}

impl Span {
    pub fn new(start: usize, end: usize) -> (s: Span)
        ensures
            s.start == start,
            s.end == end,
    {
        Span { start, end }
    }

    /// The smallest span that covers both `self` and `other`.
    pub fn merge(self, other: Span) -> (s: Span)
        ensures
            s.start == (if self.start <= other.start { self.start } else { other.start }),
            s.end == (if self.end >= other.end { self.end } else { other.end }),
    {
        Span {
            start: if self.start <= other.start { self.start } else { other.start },
            end: if self.end >= other.end { self.end } else { other.end },
        }
    }
}

/// The root node produced by a successful parse.
#[derive(Debug, Clone, PartialEq)]
pub struct Mossfile {
    /// Global settings declared before the first task.
    pub settings: Settings,
    /// All task declarations, in source order.
    pub tasks: Vec<Task>,
}

/// Key/value settings that appear before the first `task` declaration.
#[derive(Debug, Clone, PartialEq, Default)]
pub struct Settings {
    /// `project = "…"`.
    pub project: Option<String>,
    /// `shell = "…"`: the shell that runs commands (`sh` when absent).
    pub shell: Option<String>,
}

impl Settings {
    /// The shell that `shell = "…"` declares, or `default` when there is none.
    pub fn shell_or(&self, default: &str) -> (r: String)
        ensures
            r@ == match self.shell {
                Some(s) => s@,
                None => default@,
            },
    {
        match &self.shell {
            Some(s) => s.clone(),
            None => default.to_owned(),
        }
    }
}

/// A single `task` declaration.
#[derive(Debug, Clone, PartialEq)]
pub struct Task {
    pub name: String,
    /// `desc = "…"` inside the body.
    pub description: Option<String>,
    /// Flags of the header line.
    pub flags: TaskFlags,
    /// The commands of the body, in order.
    pub commands: Vec<Command>,
    /// Source range of the whole task block.
    pub span: Span,
}

/// Flags on a `task` header line.
#[derive(Debug, Clone, PartialEq, Default)]
pub struct TaskFlags {
    /// `parallel`: run every command of the body at once, failing fast.
    pub parallel: bool,
    /// `watch="<glob>"`: re-run the task when a matching file changes.
    pub watch: Option<WatchConfig>,
    /// `ready="<pattern>"`: the task is ready once its output contains the pattern.
    pub ready: Option<String>,
    /// `deps=[…]`: tasks that must complete before this one.
    pub deps: Vec<String>,
    /// `args=[…]`: positional arguments, referenced in commands as `{{name}}`.
    pub args: Vec<String>,
}

/// Configuration of the built-in file watcher.
#[derive(Debug, Clone, PartialEq)]
pub struct WatchConfig {
    /// Glob pattern to watch, e.g. `"src/**/*.rs"`.
    pub glob: String,
}

/// A single shell command inside a task body.
#[derive(Debug, Clone, PartialEq)]
pub struct Command {
    /// The command text; it may contain `{{arg}}` placeholders.
    pub raw: String,
    /// Source range of the command.
    pub span: Span,
}

// ── Views ────────────────────────────────────────────────────────────────────

pub struct CommandView {
    pub raw: Seq<char>,
    pub span: Span,
}

pub struct TaskFlagsView {
    pub parallel: bool,
    pub watch: Option<Seq<char>>,
    pub ready: Option<Seq<char>>,
    pub deps: Seq<Seq<char>>,
    pub args: Seq<Seq<char>>,
}

pub struct TaskView {
    pub name: Seq<char>,
    pub description: Option<Seq<char>>,
    pub flags: TaskFlagsView,
    pub commands: Seq<CommandView>,
    pub span: Span,
}

pub struct SettingsView {
    pub project: Option<Seq<char>>,
    pub shell: Option<Seq<char>>,
}

pub struct MossfileView {
    pub settings: SettingsView,
    pub tasks: Seq<TaskView>,
}

pub open spec fn opt_string_view(o: Option<String>) -> Option<Seq<char>> {
    match o {
        Some(s) => Some(s@),
        None => None,
    }
}

pub open spec fn strings_view(v: Seq<String>) -> Seq<Seq<char>> {
    v.map_values(|s: String| s@)
}

impl View for Command {
    type V = CommandView;

    open spec fn view(&self) -> CommandView {
        CommandView { raw: self.raw@, span: self.span }
    }
}

impl View for WatchConfig {
    type V = Seq<char>;

    open spec fn view(&self) -> Seq<char> {
        self.glob@
    }
}

impl View for TaskFlags {
    type V = TaskFlagsView;

    open spec fn view(&self) -> TaskFlagsView {
        TaskFlagsView {
            parallel: self.parallel,
            watch: match self.watch {
                Some(w) => Some(w.glob@),
                None => None,
            },
            ready: opt_string_view(self.ready),
            deps: strings_view(self.deps@),
            args: strings_view(self.args@),
        }
    }
}

impl View for Task {
    type V = TaskView;

    open spec fn view(&self) -> TaskView {
        TaskView {
            name: self.name@,
            description: opt_string_view(self.description),
            flags: self.flags@,
            commands: self.commands@.map_values(|c: Command| c@),
            span: self.span,
        }
    }
}

impl View for Settings {
    type V = SettingsView;

    open spec fn view(&self) -> SettingsView {
        SettingsView { project: opt_string_view(self.project), shell: opt_string_view(self.shell) }
    }
}

impl View for Mossfile {
    type V = MossfileView;

    open spec fn view(&self) -> MossfileView {
        MossfileView {
            settings: self.settings@,
            tasks: self.tasks@.map_values(|t: Task| t@),
        }
    }
}

} // verus!
