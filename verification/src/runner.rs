//! How a task runs: the shell, the commands with their `{{arg}}` values filled in, the
//! tasks that run before it, and what the way a command ends means.
//!
//! The library decides; the program around it spawns the processes. [`Runner::plan`]
//! lists the task runs in order, and [`command_outcome`] turns the end of a process
//! into a result.
use vstd::prelude::*;

use crate::ast::{Mossfile, MossfileView, Task, TaskView};
use crate::graph::{graph_of, is_execution_order, str_views, DependencyGraph};
use crate::run_error::RunError;
use crate::text::{str_chars, string_from_chars};

verus! {

// ── Configuration ───────────────────────────────────────────────────────────

/// Configuration that controls how a [`Runner`] behaves.
#[derive(Debug, Clone)]
pub struct RunnerConfig {
    /// Shell binary that runs each command as `<shell> -c <cmd>` (default: `"sh"`).
    pub shell: String,
    /// Print each command before running it.
    pub echo_commands: bool,
}

impl Default for RunnerConfig {
    fn default() -> (r: Self)
        ensures
            r.shell@ == "sh"@,
            !r.echo_commands,
    {
        RunnerConfig { shell: "sh".to_owned(), echo_commands: false }
    }
}

/// The shell used when the Mossfile declares none: `cmd` on Windows, `sh` elsewhere.
pub fn default_shell(windows: bool) -> (r: String)
    ensures
        r@ == (if windows {
            "cmd"@
        } else {
            "sh"@
        }),
{
    if windows {
        "cmd".to_owned()
    } else {
        "sh".to_owned()
    }
}

// ── Argument substitution ───────────────────────────────────────────────────

/// The placeholder `{{name}}`.
pub open spec fn placeholder(name: Seq<char>) -> Seq<char> {
    seq!['{', '{'] + name + seq!['}', '}']
}

/// No later one of the first `z` argument names repeats the name at position `k`:
/// position `k` holds the value that the name is bound to.
pub open spec fn last_binding(names: Seq<Seq<char>>, z: int, k: int) -> bool {
    forall|j: int| k < j < z ==> names[j] != names[k]
}

/// The first of the positions `k..z` that binds its name and whose placeholder `s`
/// starts with.
pub open spec fn first_match_from(s: Seq<char>, names: Seq<Seq<char>>, z: int, k: int) -> Option<
    int,
>
    decreases z - k,
{
    if k < 0 || k >= z {
        None
    } else if last_binding(names, z, k) && placeholder(names[k]).len() <= s.len() && s.subrange(
        0,
        placeholder(names[k]).len() as int,
    ) == placeholder(names[k]) {
        Some(k)
    } else {
        first_match_from(s, names, z, k + 1)
    }
}

proof fn lemma_first_match(s: Seq<char>, names: Seq<Seq<char>>, z: int, j: int)
    requires
        0 <= j,
    ensures
        first_match_from(s, names, z, j) matches Some(k) ==> j <= k < z && last_binding(names, z, k)
            && placeholder(names[k]).len() <= s.len() && s.subrange(
            0,
            placeholder(names[k]).len() as int,
        ) == placeholder(names[k]),
    decreases z - j,
{
    if j < z {
        lemma_first_match(s, names, z, j + 1);
    }
}

/// `s` read once from left to right: where a placeholder of a bound name starts, its
/// value is written and the placeholder skipped; every other character is copied.
/// Values are written as they are, never searched for placeholders again.
pub open spec fn substitute_text(
    s: Seq<char>,
    names: Seq<Seq<char>>,
    values: Seq<Seq<char>>,
    z: int,
) -> Seq<char>
    decreases s.len(),
{
    if s.len() == 0 {
        Seq::empty()
    } else {
        match first_match_from(s, names, z, 0) {
            Some(k) => {
                let n = placeholder(names[k]).len();
                if 0 < n <= s.len() {
                    values[k] + substitute_text(s.subrange(n as int, s.len() as int), names, values, z)
                } else {
                    s
                }
            },
            None => seq![s[0]] + substitute_text(s.subrange(1, s.len() as int), names, values, z),
        }
    }
}

/// `cmd` with each `{{name}}` of a declared argument that received a value replaced by
/// that value, in one pass over `cmd`. Names and values pair up in order; extra values are ignored, names without
/// a value keep their placeholder, and a name declared twice takes its later value.
pub open spec fn substitute(
    cmd: Seq<char>,
    names: Seq<Seq<char>>,
    values: Seq<Seq<char>>,
) -> Seq<char> {
    let z = if names.len() <= values.len() {
        names.len() as int
    } else {
        values.len() as int
    };
    substitute_text(cmd, names, values, z)
}

/// The commands of `task` with `args` substituted.
pub open spec fn substituted_commands(task: TaskView, args: Seq<Seq<char>>) -> Seq<Seq<char>> {
    task.commands.map_values(
        |c: crate::ast::CommandView| substitute(c.raw, task.flags.args, args),
    )
}

/// No character of `s` is `c`.
pub open spec fn lacks(s: Seq<char>, c: char) -> bool {
    forall|i: int| 0 <= i < s.len() ==> s[i] != c
}

proof fn lemma_no_match_without_brace(s: Seq<char>, names: Seq<Seq<char>>, z: int, k: int)
    requires
        s.len() > 0,
        s[0] != '{',
    ensures
        first_match_from(s, names, z, k) is None,
    decreases z - k,
{
    if 0 <= k < z {
        let p = placeholder(names[k]);
        if p.len() <= s.len() && s.subrange(0, p.len() as int) == p {
            assert(s.subrange(0, p.len() as int)[0] == s[0]);
            assert(p[0] == '{');
        }
        lemma_no_match_without_brace(s, names, z, k + 1);
    }
}

proof fn lemma_substitute_text_plain(
    a: Seq<char>,
    b: Seq<char>,
    names: Seq<Seq<char>>,
    values: Seq<Seq<char>>,
    z: int,
)
    requires
        lacks(a, '{'),
    ensures
        substitute_text(a + b, names, values, z) == a + substitute_text(b, names, values, z),
    decreases a.len(),
{
    if a.len() == 0 {
        assert(a + b =~= b);
    } else {
        let s = a + b;
        assert(s[0] == a[0]);
        lemma_no_match_without_brace(s, names, z, 0);
        let a1 = a.subrange(1, a.len() as int);
        assert(s.subrange(1, s.len() as int) =~= a1 + b);
        lemma_substitute_text_plain(a1, b, names, values, z);
        assert(seq![a[0]] + (a1 + substitute_text(b, names, values, z)) =~= a + substitute_text(
            b,
            names,
            values,
            z,
        ));
    }
}

/// The placeholder of another name, when neither name holds `}`, does not begin the
/// text that begins with the placeholder of `n`.
proof fn lemma_other_placeholder_no_prefix(m: Seq<char>, n: Seq<char>, b: Seq<char>)
    requires
        m != n,
        lacks(m, '}'),
        lacks(n, '}'),
    ensures
        !(placeholder(m).len() <= (placeholder(n) + b).len() && (placeholder(n) + b).subrange(
            0,
            placeholder(m).len() as int,
        ) == placeholder(m)),
{
    let s = placeholder(n) + b;
    let p = placeholder(m);
    if p.len() <= s.len() && s.subrange(0, p.len() as int) == p {
        let q = s.subrange(0, p.len() as int);
        if m.len() < n.len() {
            let x: int = 2 + m.len() as int;
            assert(q[x] == s[x]);
            assert(s[x] == n[m.len() as int]);
            assert(p[x] == '}');
        } else if m.len() > n.len() {
            let x: int = 2 + n.len() as int;
            assert(q[x] == s[x]);
            assert(s[x] == '}');
            assert(p[x] == m[n.len() as int]);
        } else {
            assert forall|i: int| 0 <= i < m.len() implies m[i] == n[i] by {
                assert(q[2 + i] == s[2 + i]);
                assert(p[2 + i] == m[i]);
                assert(s[2 + i] == n[i]);
            }
            assert(m =~= n);
        }
    }
}

proof fn lemma_first_match_is(
    n: Seq<char>,
    b: Seq<char>,
    names: Seq<Seq<char>>,
    z: int,
    k: int,
    j: int,
)
    requires
        0 <= j <= k < z <= names.len(),
        names[k] == n,
        last_binding(names, z, k),
        forall|i: int| 0 <= i < names.len() ==> lacks(#[trigger] names[i], '}'),
    ensures
        first_match_from(placeholder(n) + b, names, z, j) == Some(k),
    decreases k - j,
{
    let s = placeholder(n) + b;
    if j < k {
        assert(lacks(names[j], '}'));
        if names[j] == n {
            assert(!last_binding(names, z, j));
        } else {
            lemma_other_placeholder_no_prefix(names[j], n, b);
        }
        lemma_first_match_is(n, b, names, z, k, j + 1);
    } else {
        assert(s.subrange(0, placeholder(n).len() as int) =~= placeholder(n));
    }
}

/// Text with no `{` in it is copied as it is, and the text after it is substituted
/// as if it stood alone.
pub proof fn law_substitute_plain_text(
    a: Seq<char>,
    b: Seq<char>,
    names: Seq<Seq<char>>,
    values: Seq<Seq<char>>,
)
    requires
        lacks(a, '{'),
    ensures
        substitute(a + b, names, values) == a + substitute(b, names, values),
{
    let z = if names.len() <= values.len() {
        names.len() as int
    } else {
        values.len() as int
    };
    lemma_substitute_text_plain(a, b, names, values, z);
}

/// The placeholder `{{n}}` of a declared argument that received a value becomes that
/// value (the later one, when `n` is declared twice), and the text after it is
/// substituted as if it stood alone. Argument names hold no `}`.
pub proof fn law_substitute_placeholder(
    n: Seq<char>,
    b: Seq<char>,
    names: Seq<Seq<char>>,
    values: Seq<Seq<char>>,
    k: int,
)
    requires
        0 <= k < names.len(),
        k < values.len(),
        names[k] == n,
        forall|j: int| k < j < names.len() && j < values.len() ==> names[j] != n,
        forall|i: int| 0 <= i < names.len() ==> lacks(#[trigger] names[i], '}'),
    ensures
        substitute(placeholder(n) + b, names, values) == values[k] + substitute(b, names, values),
{
    let z = if names.len() <= values.len() {
        names.len() as int
    } else {
        values.len() as int
    };
    let s = placeholder(n) + b;
    lemma_first_match_is(n, b, names, z, k, 0);
    assert(s.subrange(placeholder(n).len() as int, s.len() as int) =~= b);
}

proof fn lemma_no_match_second(s: Seq<char>, names: Seq<Seq<char>>, z: int, k: int)
    requires
        s.len() > 1,
        s[1] != '{',
    ensures
        first_match_from(s, names, z, k) is None,
    decreases z - k,
{
    if 0 <= k < z {
        let p = placeholder(names[k]);
        if p.len() <= s.len() && s.subrange(0, p.len() as int) == p {
            assert(s.subrange(0, p.len() as int)[1] == s[1]);
            assert(p[1] == '{');
        }
        lemma_no_match_second(s, names, z, k + 1);
    }
}

proof fn lemma_no_match_unbound(
    n: Seq<char>,
    b: Seq<char>,
    names: Seq<Seq<char>>,
    z: int,
    k: int,
)
    requires
        0 <= k,
        z <= names.len(),
        lacks(n, '}'),
        forall|j: int| 0 <= j < z ==> names[j] != n,
        forall|i: int| 0 <= i < names.len() ==> lacks(#[trigger] names[i], '}'),
    ensures
        first_match_from(placeholder(n) + b, names, z, k) is None,
    decreases z - k,
{
    if k < z {
        assert(lacks(names[k], '}'));
        lemma_other_placeholder_no_prefix(names[k], n, b);
        lemma_no_match_unbound(n, b, names, z, k + 1);
    }
}

/// The placeholder `{{n}}` of a name that received no value (it is not declared, or
/// has no value) is kept as it is, and the text after it is substituted as if it
/// stood alone. Argument names hold no `}`, and `n` holds no brace.
pub proof fn law_substitute_unbound_placeholder(
    n: Seq<char>,
    b: Seq<char>,
    names: Seq<Seq<char>>,
    values: Seq<Seq<char>>,
)
    requires
        lacks(n, '{'),
        lacks(n, '}'),
        forall|j: int| 0 <= j < names.len() && j < values.len() ==> names[j] != n,
        forall|i: int| 0 <= i < names.len() ==> lacks(#[trigger] names[i], '}'),
    ensures
        substitute(placeholder(n) + b, names, values) == placeholder(n) + substitute(
            b,
            names,
            values,
        ),
{
    let z = if names.len() <= values.len() {
        names.len() as int
    } else {
        values.len() as int
    };
    let s = placeholder(n) + b;
    lemma_no_match_unbound(n, b, names, z, 0);
    let s1 = s.subrange(1, s.len() as int);
    assert(s1[1] == (if n.len() > 0 {
        n[0]
    } else {
        '}'
    }));
    lemma_no_match_second(s1, names, z, 0);
    let rest = n + seq!['}', '}'];
    assert(lacks(rest, '{'));
    assert(s1.subrange(1, s1.len() as int) =~= rest + b);
    lemma_substitute_text_plain(rest, b, names, values, z);
    let tail = substitute_text(b, names, values, z);
    assert(substitute_text(s1, names, values, z) == seq![s1[0]] + substitute_text(
        rest + b,
        names,
        values,
        z,
    ));
    assert(substitute_text(s, names, values, z) == seq![s[0]] + substitute_text(s1, names, values, z));
    assert(seq![s[0]] + (seq![s1[0]] + (rest + tail)) =~= placeholder(n) + tail);
}

/// Planning a task run substitutes the arguments into every command of the task, each
/// on its own: command `k` of the run is command `k` of the task, substituted.
pub proof fn law_substitution_per_command(task: TaskView, args: Seq<Seq<char>>)
    ensures
        run_of(task, args).commands.len() == task.commands.len(),
        forall|k: int|
            0 <= k < task.commands.len() ==> #[trigger] run_of(task, args).commands[k]
                == substitute(task.commands[k].raw, task.flags.args, args),
{
}

/// The characters of `{{name}}`.
fn placeholder_chars(name: &String) -> (r: Vec<char>)
    ensures
        r@ == placeholder(name@),
{
    let mut r: Vec<char> = Vec::new();
    r.push('{');
    r.push('{');
    let cs = str_chars(name.as_str());
    let mut i: usize = 0;
    while i < cs.len()
        invariant
            i <= cs.len(),
            cs@ == name@,
            r@ == seq!['{', '{'] + cs@.subrange(0, i as int),
        decreases cs.len() - i,
    {
        r.push(cs[i]);
        i += 1;
        assert(r@ =~= seq!['{', '{'] + cs@.subrange(0, i as int));
    }
    r.push('}');
    r.push('}');
    assert(r@ =~= placeholder(name@));
    r
}

/// Whether position `k` of the first `z` names binds its name.
fn binds(names: &Vec<String>, z: usize, k: usize) -> (r: bool)
    requires
        k < z <= names.len(),
    ensures
        r == last_binding(str_views_of_strings(names@), z as int, k as int),
{
    let ghost nv = str_views_of_strings(names@);
    let mut j: usize = k + 1;
    while j < z
        invariant
            k < j <= z,
            z <= names.len(),
            nv == str_views_of_strings(names@),
            forall|j2: int| k < j2 < j ==> nv[j2] != nv[k as int],
        decreases z - j,
    {
        if names[j] == names[k] {
            assert(nv[j as int] == nv[k as int]);
            return false;
        }
        j += 1;
    }
    true
}

/// The views of a sequence of strings.
pub open spec fn str_views_of_strings(v: Seq<String>) -> Seq<Seq<char>> {
    crate::ast::strings_view(v)
}

/// The first of the positions `0..z` that binds its name and whose placeholder
/// occurs in `text` at `i`.
fn match_at(text: &Vec<char>, i: usize, names: &Vec<String>, z: usize) -> (r: Option<usize>)
    requires
        i <= text.len(),
        z <= names.len(),
    ensures
        r == (match first_match_from(
            text@.subrange(i as int, text.len() as int),
            str_views_of_strings(names@),
            z as int,
            0,
        ) {
            Some(k) => Some(k as usize),
            None => None::<usize>,
        }),
        r matches Some(k) ==> k < z,
{
    let ghost rest = text@.subrange(i as int, text.len() as int);
    let ghost nv = str_views_of_strings(names@);
    let mut k: usize = 0;
    while k < z
        invariant
            i <= text.len(),
            z <= names.len(),
            k <= z,
            rest == text@.subrange(i as int, text.len() as int),
            nv == str_views_of_strings(names@),
            first_match_from(rest, nv, z as int, 0) == first_match_from(rest, nv, z as int, k as int),
        decreases z - k,
    {
        if binds(names, z, k) {
            let pat = placeholder_chars(&names[k]);
            let hit = crate::text::occurs_at_exec(text, &pat, i);
            proof {
                assert(nv[k as int] == names@[k as int]@);
                if pat@.len() <= rest.len() {
                    assert(rest.subrange(0, pat@.len() as int) =~= text@.subrange(
                        i as int,
                        i + pat@.len(),
                    ));
                }
            }
            if hit {
                return Some(k);
            }
        }
        k += 1;
    }
    None
}

/// `cmd` with the arguments `args` substituted for the placeholders of `names`.
fn substitute_command(cmd: &String, names: &Vec<String>, args: &[String]) -> (r: String)
    ensures
        r@ == substitute(cmd@, str_views_of_strings(names@), str_views_of_strings(args@)),
{
    let ghost nv = str_views_of_strings(names@);
    let ghost av = str_views_of_strings(args@);
    let z = if names.len() <= args.len() {
        names.len()
    } else {
        args.len()
    };
    let text = str_chars(cmd.as_str());
    let mut out: Vec<char> = Vec::new();
    let mut i: usize = 0;
    proof {
        assert(text@.subrange(0, text.len() as int) =~= text@);
        assert(out@ + substitute_text(text@, nv, av, z as int) =~= substitute_text(text@, nv, av, z as int));
    }
    while i < text.len()
        invariant
            i <= text.len(),
            z <= names.len(),
            z <= args.len(),
            text@ == cmd@,
            nv == str_views_of_strings(names@),
            av == str_views_of_strings(args@),
            out@ + substitute_text(text@.subrange(i as int, text.len() as int), nv, av, z as int)
                == substitute_text(text@, nv, av, z as int),
        decreases text.len() - i,
    {
        let ghost rest = text@.subrange(i as int, text.len() as int);
        let ghost out0 = out@;
        match match_at(&text, i, names, z) {
            Some(k) => {
                let val = str_chars(args[k].as_str());
                let plen = placeholder_chars(&names[k]).len();
                proof {
                    assert(av[k as int] == val@);
                    assert(nv[k as int] == names@[k as int]@);
                }
                let mut j: usize = 0;
                while j < val.len()
                    invariant
                        j <= val.len(),
                        out@ == out0 + val@.subrange(0, j as int),
                    decreases val.len() - j,
                {
                    out.push(val[j]);
                    j += 1;
                    assert(out@ =~= out0 + val@.subrange(0, j as int));
                }
                let ghost n = placeholder(nv[k as int]).len();
                proof {
                    assert(val@.subrange(0, val.len() as int) =~= val@);
                    assert(n == plen);
                    lemma_first_match(rest, nv, z as int, 0);
                    assert(0 < n <= rest.len());
                    assert(rest.subrange(n as int, rest.len() as int) =~= text@.subrange(
                        i + n,
                        text.len() as int,
                    ));
                    assert(out@ + substitute_text(text@.subrange(i + n, text.len() as int), nv, av, z as int)
                        =~= out0 + substitute_text(rest, nv, av, z as int));
                }
                i = i + plen;
            },
            None => {
                out.push(text[i]);
                proof {
                    assert(rest.subrange(1, rest.len() as int) =~= text@.subrange(
                        i + 1,
                        text.len() as int,
                    ));
                    assert(out@ + substitute_text(text@.subrange(i + 1, text.len() as int), nv, av, z as int)
                        =~= out0 + substitute_text(rest, nv, av, z as int));
                }
                i += 1;
            },
        }
    }
    proof {
        assert(text@.subrange(i as int, text.len() as int) =~= Seq::<char>::empty());
        assert(out@ =~= out@ + substitute_text(Seq::<char>::empty(), nv, av, z as int));
    }
    string_from_chars(&out, 0, out.len())
}

// ── Finding tasks ────────────────────────────────────────────────────────────

/// The position of the first task, from position `i` on, named `name`.
pub open spec fn first_named_from(tasks: Seq<TaskView>, name: Seq<char>, i: int) -> Option<int>
    decreases tasks.len() - i,
{
    if i < 0 || i >= tasks.len() {
        None
    } else if tasks[i].name == name {
        Some(i)
    } else {
        first_named_from(tasks, name, i + 1)
    }
}

/// The position of the first task named `name`.
pub open spec fn first_named(tasks: Seq<TaskView>, name: Seq<char>) -> Option<int> {
    first_named_from(tasks, name, 0)
}

pub proof fn lemma_first_named_from(tasks: Seq<TaskView>, name: Seq<char>, i: int)
    requires
        0 <= i,
    ensures
        first_named_from(tasks, name, i) matches Some(k) ==> i <= k < tasks.len() && tasks[k].name
            == name,
        first_named_from(tasks, name, i) is None ==> forall|j: int|
            i <= j < tasks.len() ==> tasks[j].name != name,
    decreases tasks.len() - i,
{
    if i < tasks.len() && tasks[i].name != name {
        lemma_first_named_from(tasks, name, i + 1);
    }
}

// ── Plans ───────────────────────────────────────────────────────────────────

/// One task to run: its name, its commands with the arguments substituted, whether the
/// commands run all at once, and the output line pattern that makes it ready.
pub struct TaskRun {
    pub task: String,
    pub commands: Vec<String>,
    pub parallel: bool,
    pub ready: Option<String>,
}

pub struct TaskRunView {
    pub task: Seq<char>,
    pub commands: Seq<Seq<char>>,
    pub parallel: bool,
    pub ready: Option<Seq<char>>,
}

impl View for TaskRun {
    type V = TaskRunView;

    open spec fn view(&self) -> TaskRunView {
        TaskRunView {
            task: self.task@,
            commands: str_views_of_strings(self.commands@),
            parallel: self.parallel,
            ready: crate::ast::opt_string_view(self.ready),
        }
    }
}

/// Running `task` with the arguments `args`.
pub open spec fn run_of(task: TaskView, args: Seq<Seq<char>>) -> TaskRunView {
    TaskRunView {
        task: task.name,
        commands: substituted_commands(task, args),
        parallel: task.flags.parallel,
        ready: task.flags.ready,
    }
}

/// What running a target does (see [`first_action`] and [`next_action`]): run each of
/// `runs` in order, stopping at the first that fails (a prerequisite with a `ready`
/// pattern is waited for only until it is ready); once all succeeded, report the task
/// named `missing` as not found if there is one; otherwise, when `watch` holds a glob,
/// re-run the last of `runs` (the target) each time a file that matches the glob changes.
pub struct RunPlan {
    pub runs: Vec<TaskRun>,
    pub missing: Option<String>,
    pub watch: Option<String>,
}

/// The first position in `i..pre` of `order` that names no task, or `pre`.
pub open spec fn first_missing_from(
    tasks: Seq<TaskView>,
    order: Seq<Seq<char>>,
    i: int,
    pre: int,
) -> int
    decreases pre - i,
{
    if i >= pre {
        pre
    } else if first_named(tasks, order[i]) is None {
        i
    } else {
        first_missing_from(tasks, order, i + 1, pre)
    }
}

pub proof fn lemma_first_missing_skip(
    tasks: Seq<TaskView>,
    order: Seq<Seq<char>>,
    a: int,
    b: int,
    pre: int,
)
    requires
        a <= b <= pre,
        forall|j: int| a <= j < b ==> first_named(tasks, #[trigger] order[j]) is Some,
    ensures
        first_missing_from(tasks, order, a, pre) == first_missing_from(tasks, order, b, pre),
    decreases b - a,
{
    if a < b {
        lemma_first_missing_skip(tasks, order, a + 1, b, pre);
    }
}

/// `plan` runs `target` after the prerequisites `order` (all but its last name): each
/// prerequisite without arguments, the target with `args`, each as the first task with
/// its name; it stops at the first name that no task has.
pub open spec fn plan_follows(
    tasks: Seq<TaskView>,
    order: Seq<Seq<char>>,
    target: Seq<char>,
    args: Seq<Seq<char>>,
    plan: RunPlan,
) -> bool {
    let pre = if order.len() > 0 {
        order.len() - 1
    } else {
        0
    };
    let s = first_missing_from(tasks, order, 0, pre);
    &&& forall|i: int|
        0 <= i < s ==> (#[trigger] plan.runs@[i])@ == run_of(
            tasks[first_named(tasks, order[i])->0],
            Seq::empty(),
        )
    &&& if s < pre {
        &&& plan.runs.len() == s
        &&& crate::ast::opt_string_view(plan.missing) == Some(order[s])
        &&& plan.watch is None
    } else {
        match first_named(tasks, target) {
            None => {
                &&& plan.runs.len() == s
                &&& crate::ast::opt_string_view(plan.missing) == Some(target)
                &&& plan.watch is None
            },
            Some(k) => {
                &&& plan.runs.len() == s + 1
                &&& plan.runs@[s]@ == run_of(tasks[k], args)
                &&& plan.missing is None
                &&& crate::ast::opt_string_view(plan.watch) == tasks[k].flags.watch
            },
        }
    }
}

// ── The runner ──────────────────────────────────────────────────────────────

/// Decides how the tasks of a [`Mossfile`] run.
pub struct Runner<'mf> {
    mossfile: &'mf Mossfile,
    config: RunnerConfig,
}

impl<'mf> Runner<'mf> {
    /// The Mossfile whose tasks this runner runs.
    pub closed spec fn mossfile_of(&self) -> MossfileView {
        self.mossfile@
    }

    /// The configuration in force.
    pub closed spec fn configured(&self) -> RunnerConfig {
        self.config
    }

    /// A runner with the default configuration, whose shell is the Mossfile's
    /// `shell` setting when it has one.
    pub fn new(mossfile: &'mf Mossfile) -> (r: Self)
        ensures
            r.mossfile_of() == mossfile@,
            r.configured().shell@ == match mossfile@.settings.shell {
                Some(s) => s,
                None => "sh"@,
            },
            !r.configured().echo_commands,
    {
        let shell = mossfile.settings.shell_or("sh");
        Runner { mossfile, config: RunnerConfig { shell, ..Default::default() } }
    }

    /// The same runner with `config` in force.
    pub fn with_config(self, config: RunnerConfig) -> (r: Self)
        ensures
            r.mossfile_of() == self.mossfile_of(),
            r.configured() == config,
    {
        let mut r = self;
        r.config = config;
        r
    }

    /// The configuration in force.
    pub fn config(&self) -> (c: &RunnerConfig)
        ensures
            *c == self.configured(),
    {
        &self.config
    }

    /// The first task named `name`, or [`RunError::TaskNotFound`].
    fn find_task(&self, name: &str) -> (r: Result<&'mf Task, RunError>)
        ensures
            match r {
                Ok(t) => first_named(self.mossfile_of().tasks, name@) matches Some(k) && t@
                    == self.mossfile_of().tasks[k],
                Err(e) => first_named(self.mossfile_of().tasks, name@) is None && (e matches RunError::TaskNotFound(
                    s,
                ) && s@ == name@),
            },
    {
        let mf: &'mf Mossfile = self.mossfile;
        let ghost tv = mf@.tasks;
        let mut i: usize = 0;
        while i < mf.tasks.len()
            invariant
                tv == mf@.tasks,
                tv == self.mossfile_of().tasks,
                tv == mf.tasks@.map_values(|t: Task| t@),
                i <= mf.tasks.len(),
                first_named(tv, name@) == first_named_from(tv, name@, i as int),
            decreases mf.tasks.len() - i,
        {
            if crate::text::str_eq(mf.tasks[i].name.as_str(), name) {
                proof {
                    assert(tv[i as int] == mf.tasks@[i as int]@);
                    assert(tv[i as int].name == name@);
                    assert(first_named_from(tv, name@, i as int) == Some(i as int));
                }
                return Ok(&mf.tasks[i]);
            }
            i += 1;
        }
        Err(RunError::TaskNotFound(name.to_owned()))
    }

    /// The commands of `task` with `{{name}}` placeholders replaced by the values in
    /// `args`, paired in order with the task's declared arguments.
    fn substitute_args(&self, task: &Task, args: &[String]) -> (r: Vec<String>)
        ensures
            str_views_of_strings(r@) == substituted_commands(task@, str_views_of_strings(args@)),
    {
        let mut out: Vec<String> = Vec::new();
        let mut i: usize = 0;
        while i < task.commands.len()
            invariant
                i <= task.commands.len(),
                out.len() == i,
                forall|k: int|
                    0 <= k < i ==> (#[trigger] out@[k])@ == substitute(
                        task.commands@[k].raw@,
                        str_views_of_strings(task.flags.args@),
                        str_views_of_strings(args@),
                    ),
            decreases task.commands.len() - i,
        {
            out.push(substitute_command(&task.commands[i].raw, &task.flags.args, args));
            i += 1;
        }
        assert(str_views_of_strings(out@) =~= substituted_commands(
            task@,
            str_views_of_strings(args@),
        ));
        out
    }

    /// Running `task` with `args`.
    fn task_run(&self, task: &Task, args: &[String]) -> (r: TaskRun)
        ensures
            r@ == run_of(task@, str_views_of_strings(args@)),
    {
        TaskRun {
            task: task.name.clone(),
            commands: self.substitute_args(task, args),
            parallel: task.flags.parallel,
            ready: task.flags.ready.clone(),
        }
    }

    /// The plan of running `target` after the prerequisites in `order` (all but its
    /// last name).
    pub fn plan_for_order(&self, order: &Vec<&str>, target: &str, args: &[String]) -> (r: RunPlan)
        ensures
            plan_follows(
                self.mossfile_of().tasks,
                str_views(order@),
                target@,
                str_views_of_strings(args@),
                r,
            ),
    {
        let ghost tv = self.mossfile_of().tasks;
        let ghost ov = str_views(order@);
        let none: Vec<String> = Vec::new();
        let n = order.len();
        let pre = if n > 0 {
            n - 1
        } else {
            0
        };
        let mut runs: Vec<TaskRun> = Vec::new();
        let mut i: usize = 0;
        while i < pre
            invariant
                tv == self.mossfile_of().tasks,
                ov == str_views(order@),
                n == order.len(),
                pre == (if n > 0 { n - 1 } else { 0 }),
                i <= pre,
                none@ == Seq::<String>::empty(),
                runs.len() == i,
                forall|j: int| 0 <= j < i ==> first_named(tv, #[trigger] ov[j]) is Some,
                forall|j: int|
                    0 <= j < i ==> (#[trigger] runs@[j])@ == run_of(
                        tv[first_named(tv, ov[j])->0],
                        Seq::empty(),
                    ),
            decreases pre - i,
        {
            match self.find_task(order[i]) {
                Err(_) => {
                    proof {
                        assert(ov[i as int] == order@[i as int]@);
                        lemma_first_missing_skip(tv, ov, 0, i as int, pre as int);
                    }
                    return RunPlan { runs, missing: Some(order[i].to_owned()), watch: None };
                },
                Ok(task) => {
                    proof {
                        assert(ov[i as int] == order@[i as int]@);
                        assert(str_views_of_strings(none@) =~= Seq::<Seq<char>>::empty());
                    }
                    runs.push(self.task_run(task, none.as_slice()));
                },
            }
            i += 1;
        }
        proof {
            lemma_first_missing_skip(tv, ov, 0, pre as int, pre as int);
        }
        match self.find_task(target) {
            Err(_) => RunPlan { runs, missing: Some(target.to_owned()), watch: None },
            Ok(task) => {
                let watch = match &task.flags.watch {
                    Some(w) => Some(w.glob.clone()),
                    None => None,
                };
                runs.push(self.task_run(task, args));
                RunPlan { runs, missing: None, watch }
            },
        }
    }

    /// The plan of running `target_task`: its prerequisites first, in dependency
    /// order, then the task itself with `args`.
    ///
    /// Returns [`RunError::TaskNotFound`] if no task is named `target_task`.
    pub fn plan(&self, target_task: &str, args: &[String]) -> (r: Result<RunPlan, RunError>)
        ensures
            r is Err <==> !graph_of(self.mossfile_of().tasks).contains_key(target_task@),
            r matches Err(e) ==> (e matches RunError::TaskNotFound(s) && s@ == target_task@),
            r matches Ok(p) ==> exists|o: Seq<Seq<char>>|
                is_execution_order(graph_of(self.mossfile_of().tasks), target_task@, o)
                    && plan_follows(
                    self.mossfile_of().tasks,
                    o,
                    target_task@,
                    str_views_of_strings(args@),
                    p,
                ),
    {
        let graph = DependencyGraph::build(self.mossfile);
        let order = match graph.execution_order(target_task) {
            Ok(order) => order,
            Err(e) => {
                return Err(e);
            },
        };
        let p = self.plan_for_order(&order, target_task, args);
        proof {
            assert(is_execution_order(
                graph_of(self.mossfile_of().tasks),
                target_task@,
                str_views(order@),
            ));
        }
        Ok(p)
    }
}

// ── The run, step by step ───────────────────────────────────────────────────

/// What the program reports after carrying out an action of a run.
pub enum RunEvent {
    /// The task run ended, successfully or with an error.
    Finished(Result<(), RunError>),
    /// The task run started in the background printed its ready pattern, or its
    /// output ended.
    Ready,
    /// A watched file changed.
    Changed,
}

/// What the program does next in a run.
pub enum RunAction {
    /// Run the task run at this position of the plan to its end.
    RunToEnd(usize),
    /// Start the task run at this position and wait only until it is ready.
    StartUntilReady(usize),
    /// Wait for a change of a file that matches the plan's watch glob.
    WaitForChange,
    /// The run succeeded.
    Done,
    /// The run failed with this error.
    Fail(RunError),
}

/// Starting the task run at position `k`: a prerequisite with a ready pattern is
/// waited for only until it is ready; any other run, the target included, runs to
/// its end.
pub open spec fn start_of(plan: RunPlan, k: int) -> RunAction {
    if plan.runs@[k].ready is Some && k + 1 < plan.runs@.len() {
        RunAction::StartUntilReady(k as usize)
    } else {
        RunAction::RunToEnd(k as usize)
    }
}

/// A prerequisite with a ready pattern is started and waited for only until it is
/// ready; every other task run, and the target (the last run) always, runs to its end.
pub proof fn law_ready_prerequisites_start_in_background(plan: RunPlan, k: int)
    requires
        0 <= k < plan.runs@.len(),
    ensures
        plan.runs@[k].ready is Some && k + 1 < plan.runs@.len() ==> start_of(plan, k)
            == RunAction::StartUntilReady(k as usize),
        plan.runs@[k].ready is None || k + 1 == plan.runs@.len() ==> start_of(plan, k)
            == RunAction::RunToEnd(k as usize),
{
}

/// What follows once every task run succeeded: the missing task is reported, else a
/// watched target waits for a change, else the run is done.
pub open spec fn after_all_runs(plan: RunPlan) -> RunAction {
    match plan.missing {
        Some(n) => RunAction::Fail(RunError::TaskNotFound(n)),
        None => if plan.watch is Some {
            RunAction::WaitForChange
        } else {
            RunAction::Done
        },
    }
}

/// Once every task run succeeded: a target that was not found is reported as not
/// found; otherwise a target that watches files waits for a change; otherwise the run
/// is done.
pub proof fn law_after_all_runs(plan: RunPlan)
    ensures
        plan.missing matches Some(n) ==> after_all_runs(plan) == RunAction::Fail(
            RunError::TaskNotFound(n),
        ),
        plan.missing is None && plan.watch is Some ==> after_all_runs(plan) == RunAction::WaitForChange,
        plan.missing is None && plan.watch is None ==> after_all_runs(plan) == RunAction::Done,
{
}

/// `a` is `b`, where a failure for a missing task is compared by the task's name.
pub open spec fn same_action(a: RunAction, b: RunAction) -> bool {
    match b {
        RunAction::Fail(RunError::TaskNotFound(n)) => a matches RunAction::Fail(
            RunError::TaskNotFound(m),
        ) && m@ == n@,
        _ => a == b,
    }
}

/// The action of starting task run `k` of `plan`.
fn start_run(plan: &RunPlan, k: usize) -> (a: RunAction)
    requires
        k < plan.runs@.len(),
    ensures
        a == start_of(*plan, k as int),
{
    if plan.runs[k].ready.is_some() && k < plan.runs.len() - 1 {
        RunAction::StartUntilReady(k)
    } else {
        RunAction::RunToEnd(k)
    }
}

/// The action once every task run of `plan` succeeded.
fn finish_runs(plan: &RunPlan) -> (a: RunAction)
    ensures
        same_action(a, after_all_runs(*plan)),
{
    match &plan.missing {
        Some(n) => RunAction::Fail(RunError::TaskNotFound(n.clone())),
        None => if plan.watch.is_some() {
            RunAction::WaitForChange
        } else {
            RunAction::Done
        },
    }
}

/// The first action of running `plan`: start its first task run, or, when it has
/// none, report the missing task (or finish).
pub fn first_action(plan: &RunPlan) -> (a: RunAction)
    ensures
        plan.runs@.len() > 0 ==> a == start_of(*plan, 0),
        plan.runs@.len() == 0 ==> same_action(a, after_all_runs(*plan)),
{
    if plan.runs.len() > 0 {
        start_run(plan, 0)
    } else {
        finish_runs(plan)
    }
}

/// The action that follows the event `ev` about task run `i` of `plan`: a failure
/// ends the run with its error; a run that succeeded (or became ready) is followed by
/// the next task run, or, after the last, by what follows all runs; a change re-runs
/// the target, the last task run.
pub fn next_action(plan: &RunPlan, i: usize, ev: RunEvent) -> (a: RunAction)
    requires
        i < plan.runs@.len(),
    ensures
        ev matches RunEvent::Finished(Err(e)) ==> a == RunAction::Fail(e),
        (ev is Ready || ev matches RunEvent::Finished(Ok(_))) && i + 1 < plan.runs@.len() ==> a
            == start_of(*plan, i + 1),
        (ev is Ready || ev matches RunEvent::Finished(Ok(_))) && i + 1 == plan.runs@.len()
            ==> same_action(a, after_all_runs(*plan)),
        ev is Changed ==> a == RunAction::RunToEnd((plan.runs@.len() - 1) as usize),
{
    match ev {
        RunEvent::Finished(Err(e)) => RunAction::Fail(e),
        RunEvent::Changed => RunAction::RunToEnd(plan.runs.len() - 1),
        _ => if i < plan.runs.len() - 1 {
            start_run(plan, i + 1)
        } else {
            finish_runs(plan)
        },
    }
}

// ── How a command ends ──────────────────────────────────────────────────────

/// The result of a command that ended: `Ok` on success; otherwise, when the platform
/// reports kills (`signals`) and the command left no exit code, it was killed by a
/// signal; else it failed with its exit code, `-1` when it has none.
pub fn command_outcome(
    task: &str,
    cmd: &str,
    success: bool,
    code: Option<i32>,
    signals: bool,
) -> (r: Result<(), RunError>)
    ensures
        success ==> r is Ok,
        !success && signals && code is None ==> (r matches Err(
            RunError::CommandKilled { task: t, cmd: c },
        ) && t@ == task@ && c@ == cmd@),
        !success && !(signals && code is None) ==> (r matches Err(
            RunError::CommandFailed { task: t, cmd: c, code: k },
        ) && t@ == task@ && c@ == cmd@ && k == match code {
            Some(v) => v,
            None => -1i32,
        }),
{
    if success {
        return Ok(());
    }
    let code_or = match code {
        Some(v) => v,
        None => -1,
    };
    if signals && code.is_none() {
        return Err(RunError::CommandKilled { task: task.to_owned(), cmd: cmd.to_owned() });
    }
    Err(RunError::CommandFailed { task: task.to_owned(), cmd: cmd.to_owned(), code: code_or })
}

} // verus!
