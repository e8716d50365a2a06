//! The checks that a parsed Mossfile must pass: unique task names, known dependencies,
//! declared `{{arg}}` placeholders, and no dependency cycle.
use vstd::prelude::*;

use crate::ast::{strings_view, Mossfile, Task, TaskView};
use crate::error::{is_boundary, location_of_offset, offset_to_location_in, ParseError, ParseErrorView};
use crate::paths::{has_cycle, is_path, lemma_path_extend, lemma_ranked_acyclic, lemma_subpath, ranks_edges, reaches, step_ok};
use crate::text::{str_chars, string_from_chars, utf8_len};

verus! {

// ── Placeholders ─────────────────────────────────────────────────────────────

/// `s[i]` and `s[i + 1]` are both `c`.
pub open spec fn pair_at(s: Seq<char>, i: int, c: char) -> bool {
    0 <= i && i + 1 < s.len() && s[i] == c && s[i + 1] == c
}

/// The first position at or after `i` where `c` occurs twice in a row.
pub open spec fn find_pair(s: Seq<char>, c: char, i: int) -> Option<int>
    decreases s.len() - i,
{
    if i < 0 || i + 1 >= s.len() {
        None
    } else if pair_at(s, i, c) {
        Some(i)
    } else {
        find_pair(s, c, i + 1)
    }
}

pub proof fn lemma_find_pair(s: Seq<char>, c: char, i: int)
    requires
        0 <= i,
    ensures
        find_pair(s, c, i) matches Some(j) ==> i <= j && pair_at(s, j, c) && forall|m: int|
            i <= m < j ==> !pair_at(s, m, c),
        find_pair(s, c, i) is None ==> forall|m: int| i <= m ==> !pair_at(s, m, c),
    decreases s.len() - i,
{
    if i + 1 < s.len() && !pair_at(s, i, c) {
        lemma_find_pair(s, c, i + 1);
    }
}

/// The names of the `{{name}}` placeholders of `s` from position `i` on, in order: each
/// runs from just after a `{{` to the first `}}` after it; scanning resumes after that
/// `}}`. A `{{` with no `}}` after it ends the scan.
pub open spec fn placeholders_from(s: Seq<char>, i: int) -> Seq<Seq<char>>
    decreases s.len() - i,
{
    if i < 0 || i >= s.len() {
        Seq::empty()
    } else {
        match find_pair(s, '{', i) {
            None => Seq::empty(),
            Some(o) => match find_pair(s, '}', o + 2) {
                None => Seq::empty(),
                Some(c) => {
                    proof {
                        lemma_find_pair(s, '{', i);
                        lemma_find_pair(s, '}', o + 2);
                    }
                    seq![s.subrange(o + 2, c)] + placeholders_from(s, c + 2)
                },
            },
        }
    }
}

/// The `{{name}}` placeholder names of a command, in order.
pub open spec fn placeholders(s: Seq<char>) -> Seq<Seq<char>> {
    placeholders_from(s, 0)
}

proof fn lemma_find_pair_skip(s: Seq<char>, c: char, i: int, j: int)
    requires
        0 <= i <= j,
        forall|m: int| i <= m < j ==> !pair_at(s, m, c),
    ensures
        find_pair(s, c, i) == find_pair(s, c, j),
    decreases j - i,
{
    if i < j {
        lemma_find_pair_skip(s, c, i + 1, j);
        if i + 1 >= s.len() {
            lemma_find_pair(s, c, j);
        }
    }
}

proof fn lemma_find_pair_shift(x: Seq<char>, b: Seq<char>, c: char, i: int)
    requires
        0 <= i,
    ensures
        find_pair(x + b, c, x.len() + i) == (match find_pair(b, c, i) {
            Some(j) => Some(x.len() + j),
            None => None::<int>,
        }),
    decreases b.len() - i,
{
    let s = x + b;
    if i + 1 < b.len() {
        assert(s[x.len() + i] == b[i]);
        assert(s[x.len() + i + 1] == b[i + 1]);
        lemma_find_pair_shift(x, b, c, i + 1);
    }
}

/// Placeholders read from `x.len() + i` in `x + b` are those read from `i` in `b`.
proof fn lemma_placeholders_shift(x: Seq<char>, b: Seq<char>, i: int)
    requires
        0 <= i,
    ensures
        placeholders_from(x + b, x.len() + i) == placeholders_from(b, i),
    decreases b.len() - i,
{
    let s = x + b;
    let d = x.len() as int;
    if i < b.len() {
        lemma_find_pair_shift(x, b, '{', i);
        lemma_find_pair(b, '{', i);
        if let Some(o) = find_pair(b, '{', i) {
            lemma_find_pair_shift(x, b, '}', o + 2);
            lemma_find_pair(b, '}', o + 2);
            if let Some(c) = find_pair(b, '}', o + 2) {
                assert(s.subrange(d + o + 2, d + c) =~= b.subrange(o + 2, c));
                lemma_placeholders_shift(x, b, c + 2);
                assert(d + (c + 2) == (d + c) + 2);
            }
        }
    }
}

/// Text with no `{` in it holds no placeholder: the placeholders of `a + b` are those
/// of `b`.
pub proof fn law_placeholders_plain_text(a: Seq<char>, b: Seq<char>)
    requires
        forall|i: int| 0 <= i < a.len() ==> a[i] != '{',
    ensures
        placeholders(a + b) == placeholders(b),
{
    let s = a + b;
    let d = a.len() as int;
    assert forall|m: int| 0 <= m < d implies !pair_at(s, m, '{') by {
        assert(s[m] == a[m]);
    }
    lemma_find_pair_skip(s, '{', 0, d);
    lemma_placeholders_shift(a, b, 0);
    lemma_find_pair(s, '{', d);
}

/// The placeholder `{{n}}` (of a name with no `}`) is read as the name `n`, and the
/// placeholders after it are read as if the text after it stood alone: every
/// placeholder of a command is found, in order.
pub proof fn law_placeholders_placeholder(n: Seq<char>, b: Seq<char>)
    requires
        forall|i: int| 0 <= i < n.len() ==> n[i] != '}',
    ensures
        placeholders(seq!['{', '{'] + n + seq!['}', '}'] + b) == seq![n] + placeholders(b),
{
    let x = seq!['{', '{'] + n + seq!['}', '}'];
    let s = x + b;
    let e: int = 2 + n.len() as int;
    assert(s =~= seq!['{', '{'] + n + seq!['}', '}'] + b);
    assert(s[0] == '{' && s[1] == '{');
    assert(pair_at(s, 0, '{'));
    assert forall|m: int| 2 <= m < e implies !pair_at(s, m, '}') by {
        assert(s[m] == n[m - 2]);
    }
    assert(s[e] == '}' && s[e + 1] == '}');
    lemma_find_pair_skip(s, '}', 2, e);
    assert(pair_at(s, e, '}'));
    assert(find_pair(s, '}', e) == Some(e));
    assert(s.subrange(2, e) =~= n);
    lemma_placeholders_shift(x, b, 0);
    assert(x.len() == e + 2);
}

/// A `{{` that no `}}` closes ends the reading: it gives no name, and nothing after it
/// is read.
pub proof fn law_placeholders_unclosed(a: Seq<char>, n: Seq<char>)
    requires
        forall|i: int| 0 <= i < a.len() ==> a[i] != '{',
        forall|i: int| 0 <= i < n.len() ==> n[i] != '}',
    ensures
        placeholders(a + seq!['{', '{'] + n) == Seq::<Seq<char>>::empty(),
{
    let b = seq!['{', '{'] + n;
    assert(a + seq!['{', '{'] + n =~= a + b);
    law_placeholders_plain_text(a, b);
    assert(pair_at(b, 0, '{'));
    assert forall|m: int| 2 <= m implies !pair_at(b, m, '}') by {
        if 2 <= m < b.len() {
            assert(b[m] == n[m - 2]);
        }
    }
    lemma_find_pair(b, '}', 2);
}

fn find_pair_exec(v: &Vec<char>, c: char, from: usize) -> (r: Option<usize>)
    ensures
        r == (match find_pair(v@, c, from as int) {
            Some(j) => Some(j as usize),
            None => None::<usize>,
        }),
        r matches Some(j) ==> j + 1 < v.len(),
{
    let mut i = from;
    while i < v.len() && i + 1 < v.len()
        invariant
            from <= i,
            find_pair(v@, c, from as int) == find_pair(v@, c, i as int),
        decreases v.len() - i,
    {
        if v[i] == c && v[i + 1] == c {
            return Some(i);
        }
        i += 1;
    }
    None
}

/// Extract all `{{name}}` placeholder names from a command string.
fn extract_placeholders(cmd: &Vec<char>) -> (r: Vec<String>)
    ensures
        r@.map_values(|p: String| p@) == placeholders(cmd@),
{
    let mut results: Vec<String> = Vec::new();
    let mut rest: usize = 0;
    while rest < cmd.len()
        invariant
            rest <= cmd.len(),
            results@.map_values(|p: String| p@) + placeholders_from(cmd@, rest as int)
                == placeholders(cmd@),
        ensures
            results@.map_values(|p: String| p@) == placeholders(cmd@),
        decreases cmd.len() - rest,
    {
        proof {
            assert(results@.map_values(|p: String| p@) + Seq::<Seq<char>>::empty()
                =~= results@.map_values(|p: String| p@));
            lemma_find_pair(cmd@, '{', rest as int);
        }
        match find_pair_exec(cmd, '{', rest) {
            None => {
                assert(results@.map_values(|p: String| p@) + Seq::<Seq<char>>::empty()
                    =~= results@.map_values(|p: String| p@));
                break;
            },
            Some(open) => {
                proof {
                    lemma_find_pair(cmd@, '}', open + 2);
                }
                match find_pair_exec(cmd, '}', open + 2) {
                    None => {
                        assert(results@.map_values(|p: String| p@) + Seq::<Seq<char>>::empty()
                            =~= results@.map_values(|p: String| p@));
                        break;
                    },
                    Some(close) => {
                        let name = string_from_chars(cmd, open + 2, close);
                        let ghost before = results@.map_values(|p: String| p@);
                        results.push(name);
                        assert(results@.map_values(|p: String| p@) =~= before.push(name@));
                        assert(before.push(name@) + placeholders_from(cmd@, close + 2) =~= before
                            + placeholders_from(cmd@, rest as int));
                        rest = close + 2;
                    },
                }
            },
        }
    }
    results
}


// ── Structural checks ────────────────────────────────────────────────────────

/// The names of `tasks`, in order.
pub open spec fn task_names(tasks: Seq<TaskView>) -> Seq<Seq<char>> {
    tasks.map_values(|t: TaskView| t.name)
}

/// No two tasks share a name.
pub open spec fn names_unique(tasks: Seq<TaskView>) -> bool {
    forall|i: int, j: int|
        0 <= i < tasks.len() && 0 <= j < tasks.len() && i != j ==> tasks[i].name != tasks[j].name
}

/// Task `i` has the name of an earlier task.
pub open spec fn has_earlier_twin(tasks: Seq<TaskView>, i: int) -> bool {
    exists|j: int| 0 <= j < i && tasks[j].name == tasks[i].name
}

/// The duplicate-name error for the first task, from `i` on, whose name an earlier
/// task already has.
pub open spec fn duplicate_error_from(tasks: Seq<TaskView>, s: Seq<char>, i: int) -> Option<
    ParseErrorView,
>
    decreases tasks.len() - i,
{
    if i < 0 || i >= tasks.len() {
        None
    } else if has_earlier_twin(tasks, i) {
        Some(
            ParseErrorView::DuplicateTask {
                name: tasks[i].name,
                location: location_of_offset(s, tasks[i].span.start as int),
            },
        )
    } else {
        duplicate_error_from(tasks, s, i + 1)
    }
}

/// Index of the first of `deps`, from `k` on, that is not among `names`.
pub open spec fn first_unknown_from(names: Seq<Seq<char>>, deps: Seq<Seq<char>>, k: int) -> Option<
    int,
>
    decreases deps.len() - k,
{
    if k < 0 || k >= deps.len() {
        None
    } else if !names.contains(deps[k]) {
        Some(k)
    } else {
        first_unknown_from(names, deps, k + 1)
    }
}

/// The first of `phs`, from `k` on, that is not among `args`.
pub open spec fn first_undeclared_from(args: Seq<Seq<char>>, phs: Seq<Seq<char>>, k: int) -> Option<
    Seq<char>,
>
    decreases phs.len() - k,
{
    if k < 0 || k >= phs.len() {
        None
    } else if !args.contains(phs[k]) {
        Some(phs[k])
    } else {
        first_undeclared_from(args, phs, k + 1)
    }
}

/// The first command, from `c` on, with a placeholder that is not among `args`,
/// and that placeholder.
pub open spec fn first_bad_command_from(
    args: Seq<Seq<char>>,
    cmds: Seq<crate::ast::CommandView>,
    c: int,
) -> Option<(int, Seq<char>)>
    decreases cmds.len() - c,
{
    if c < 0 || c >= cmds.len() {
        None
    } else {
        match first_undeclared_from(args, placeholders(cmds[c].raw), 0) {
            Some(p) => Some((c, p)),
            None => first_bad_command_from(args, cmds, c + 1),
        }
    }
}

/// The error that task `i` raises: an unknown dependency first, else an undeclared
/// placeholder.
pub open spec fn task_reference_error(tasks: Seq<TaskView>, s: Seq<char>, i: int) -> Option<
    ParseErrorView,
> {
    let t = tasks[i];
    match first_unknown_from(task_names(tasks), t.flags.deps, 0) {
        Some(k) => Some(
            ParseErrorView::UnknownDependency {
                task: t.name,
                dep: t.flags.deps[k],
                location: location_of_offset(s, t.span.start as int),
            },
        ),
        None => match first_bad_command_from(t.flags.args, t.commands, 0) {
            Some((c, p)) => Some(
                ParseErrorView::UndeclaredArgument {
                    task: t.name,
                    arg: p,
                    location: location_of_offset(s, t.commands[c].span.start as int),
                },
            ),
            None => None,
        },
    }
}

/// The reference error of the first task, from `i` on, that raises one.
pub open spec fn reference_error_from(tasks: Seq<TaskView>, s: Seq<char>, i: int) -> Option<
    ParseErrorView,
>
    decreases tasks.len() - i,
{
    if i < 0 || i >= tasks.len() {
        None
    } else {
        match task_reference_error(tasks, s, i) {
            Some(e) => Some(e),
            None => reference_error_from(tasks, s, i + 1),
        }
    }
}

/// The first error of the checks that come before cycle detection: duplicate names,
/// then, task by task, unknown dependencies and undeclared placeholders.
pub open spec fn structural_error(tasks: Seq<TaskView>, s: Seq<char>) -> Option<ParseErrorView> {
    match duplicate_error_from(tasks, s, 0) {
        Some(e) => Some(e),
        None => reference_error_from(tasks, s, 0),
    }
}

/// Every position that an error may point at falls on a character boundary of `s`.
pub open spec fn spans_on_boundaries(tasks: Seq<TaskView>, s: Seq<char>) -> bool {
    &&& forall|i: int| 0 <= i < tasks.len() ==> is_boundary(s, #[trigger] tasks[i].span.start as int)
    &&& forall|i: int, c: int|
        0 <= i < tasks.len() && 0 <= c < tasks[i].commands.len() ==> is_boundary(
            s,
            #[trigger] tasks[i].commands[c].span.start as int,
        )
}

// ── Dependency graph ─────────────────────────────────────────────────────────

/// Task `a` lists the name of task `b` among its dependencies.
pub open spec fn dep_edge(tasks: Seq<TaskView>) -> spec_fn(int, int) -> bool {
    |a: int, b: int|
        0 <= a < tasks.len() && 0 <= b < tasks.len() && tasks[a].flags.deps.contains(tasks[b].name)
}

/// Following dependencies from some task leads back to it.
pub open spec fn has_dependency_cycle(tasks: Seq<TaskView>) -> bool {
    has_cycle(dep_edge(tasks), tasks.len() as int)
}

/// The text of a cycle report: `<task> → <dependency>`.
pub open spec fn cycle_text(task: Seq<char>, dep: Seq<char>) -> Seq<char> {
    task + seq![' ', '\u{2192}', ' '] + dep
}

/// `e` reports the dependency edge from task `a` to its `k`-th dependency, and that
/// dependency leads back to `a`: the edge lies on a cycle.
pub open spec fn reports_cycle_edge(tasks: Seq<TaskView>, e: ParseErrorView) -> bool {
    exists|a: int, k: int, b: int|
        {
            &&& 0 <= a < tasks.len()
            &&& 0 <= k < tasks[a].flags.deps.len()
            &&& 0 <= b < tasks.len()
            &&& tasks[b].name == tasks[a].flags.deps[k]
            &&& reaches(dep_edge(tasks), tasks.len() as int, b, a)
            &&& e == ParseErrorView::DependencyCycle {
                cycle: cycle_text(tasks[a].name, tasks[a].flags.deps[k]),
            }
        }
}

// ── Executable checks ────────────────────────────────────────────────────────

/// Index of the first task named `name`.
fn name_index(tasks: &Vec<Task>, name: &String) -> (r: Option<usize>)
    ensures
        r matches Some(j) ==> j < tasks.len() && tasks@[j as int].name@ == name@,
        r is None ==> forall|j: int| 0 <= j < tasks.len() ==> tasks@[j].name@ != name@,
{
    let mut j: usize = 0;
    while j < tasks.len()
        invariant
            j <= tasks.len(),
            forall|m: int| 0 <= m < j ==> tasks@[m].name@ != name@,
        decreases tasks.len() - j,
    {
        if tasks[j].name == *name {
            return Some(j);
        }
        j += 1;
    }
    None
}

/// Whether `name` is one of `names`.
fn contains_string(names: &Vec<String>, name: &String) -> (r: bool)
    ensures
        r == names@.map_values(|x: String| x@).contains(name@),
{
    let ghost view = names@.map_values(|x: String| x@);
    let mut j: usize = 0;
    while j < names.len()
        invariant
            j <= names.len(),
            view == names@.map_values(|x: String| x@),
            forall|m: int| 0 <= m < j ==> view[m] != name@,
        decreases names.len() - j,
    {
        if names[j] == *name {
            assert(view[j as int] == name@);
            return true;
        }
        j += 1;
    }
    false
}


/// The first of the checks that precede cycle detection that fails, if any.
fn structural_check(mossfile: &Mossfile, chars: &Vec<char>) -> (r: Result<(), ParseError>)
    requires
        utf8_len(chars@) < usize::MAX,
        spans_on_boundaries(mossfile@.tasks, chars@),
    ensures
        match structural_error(mossfile@.tasks, chars@) {
            Some(e) => r matches Err(x) && x@ == e,
            None => r is Ok,
        },
{
    let tasks = &mossfile.tasks;
    let ghost tv = mossfile@.tasks;
    let ghost s = chars@;
    let n = tasks.len();
    assert(tv.len() == n);
    // Duplicate names.
    let mut i: usize = 0;
    while i < n
        invariant
            n == tasks.len(),
            tv == mossfile@.tasks,
            tv.len() == n,
            tasks == &mossfile.tasks,
            s == chars@,
            utf8_len(s) < usize::MAX,
            spans_on_boundaries(tv, s),
            i <= n,
            duplicate_error_from(tv, s, 0) == duplicate_error_from(tv, s, i as int),
        decreases n - i,
    {
        assert(tv[i as int] == tasks@[i as int]@);
        let mut j: usize = 0;
        while j < i
            invariant
                n == tasks.len(),
                tv == mossfile@.tasks,
                tv.len() == n,
                tasks == &mossfile.tasks,
                s == chars@,
                utf8_len(s) < usize::MAX,
                spans_on_boundaries(tv, s),
                duplicate_error_from(tv, s, 0) == duplicate_error_from(tv, s, i as int),
                i < n,
                j <= i,
                forall|m: int| 0 <= m < j ==> tv[m].name != tv[i as int].name,
            decreases i - j,
        {
            assert(tv[j as int] == tasks@[j as int]@);
            if tasks[j].name == tasks[i].name {
                assert(has_earlier_twin(tv, i as int));
                let location = offset_to_location_in(chars, tasks[i].span.start);
                return Err(ParseError::DuplicateTask { name: tasks[i].name.clone(), location });
            }
            j += 1;
        }
        assert(!has_earlier_twin(tv, i as int));
        i += 1;
    }
    assert(duplicate_error_from(tv, s, 0) is None);
    // Unknown dependencies and undeclared placeholders, task by task.
    let mut i: usize = 0;
    while i < n
        invariant
            n == tasks.len(),
            tv == mossfile@.tasks,
            tv.len() == n,
            tasks == &mossfile.tasks,
            s == chars@,
            utf8_len(s) < usize::MAX,
            spans_on_boundaries(tv, s),
            duplicate_error_from(tv, s, 0) is None,
            i <= n,
            reference_error_from(tv, s, 0) == reference_error_from(tv, s, i as int),
        decreases n - i,
    {
        let task = &tasks[i];
        assert(tv[i as int] == task@);
        let ghost t = tv[i as int];
        let deps = &task.flags.deps;
        assert(t.flags.deps == strings_view(deps@));
        let mut k: usize = 0;
        while k < deps.len()
            invariant
                n == tasks.len(),
                tv == mossfile@.tasks,
                tv.len() == n,
                tasks == &mossfile.tasks,
                s == chars@,
                utf8_len(s) < usize::MAX,
                spans_on_boundaries(tv, s),
                duplicate_error_from(tv, s, 0) is None,
                reference_error_from(tv, s, 0) == reference_error_from(tv, s, i as int),
                i < n,
                t == tv[i as int],
                task@ == t,
                t.flags.deps == strings_view(deps@),
                k <= deps.len(),
                first_unknown_from(task_names(tv), t.flags.deps, 0) == first_unknown_from(
                    task_names(tv),
                    t.flags.deps,
                    k as int,
                ),
            decreases deps.len() - k,
        {
            let found = name_index(tasks, &deps[k]);
            if found.is_none() {
                assert(!task_names(tv).contains(t.flags.deps[k as int])) by {
                    if task_names(tv).contains(t.flags.deps[k as int]) {
                        let m = choose|m: int|
                            0 <= m < task_names(tv).len() && task_names(tv)[m]
                                == t.flags.deps[k as int];
                        assert(tv[m] == tasks@[m]@);
                    }
                }
                assert(first_unknown_from(task_names(tv), t.flags.deps, k as int) == Some(k as int));
                assert(is_boundary(s, tv[i as int].span.start as int));
                let location = offset_to_location_in(chars, task.span.start);
                assert(task_reference_error(tv, s, i as int) == Some(
                    ParseErrorView::UnknownDependency {
                        task: t.name,
                        dep: t.flags.deps[k as int],
                        location: location,
                    },
                ));
                assert(t.flags.deps[k as int] == deps@[k as int]@);
                return Err(
                    ParseError::UnknownDependency {
                        task: task.name.clone(),
                        dep: deps[k].clone(),
                        location,
                    },
                );
            } else {
                let m = found.unwrap();
                assert(tv[m as int] == tasks@[m as int]@);
                assert(task_names(tv)[m as int] == t.flags.deps[k as int]);
            }
            k += 1;
        }
        let cmds = &task.commands;
        assert(t.commands == cmds@.map_values(|c: crate::ast::Command| c@));
        let mut c: usize = 0;
        while c < cmds.len()
            invariant
                n == tasks.len(),
                tv == mossfile@.tasks,
                tv.len() == n,
                tasks == &mossfile.tasks,
                s == chars@,
                utf8_len(s) < usize::MAX,
                spans_on_boundaries(tv, s),
                duplicate_error_from(tv, s, 0) is None,
                reference_error_from(tv, s, 0) == reference_error_from(tv, s, i as int),
                first_unknown_from(task_names(tv), t.flags.deps, 0) is None,
                i < n,
                t == tv[i as int],
                task@ == t,
                t.flags.args == strings_view(task.flags.args@),
                t.commands == cmds@.map_values(|c: crate::ast::Command| c@),
                c <= cmds.len(),
                first_bad_command_from(t.flags.args, t.commands, 0) == first_bad_command_from(
                    t.flags.args,
                    t.commands,
                    c as int,
                ),
            decreases cmds.len() - c,
        {
            let cmd_chars = str_chars(cmds[c].raw.as_str());
            let phs = extract_placeholders(&cmd_chars);
            let ghost pv = phs@.map_values(|p: String| p@);
            assert(pv == placeholders(t.commands[c as int].raw));
            let mut q: usize = 0;
            while q < phs.len()
                invariant
                    n == tasks.len(),
                    tv == mossfile@.tasks,
                    tv.len() == n,
                    tasks == &mossfile.tasks,
                    s == chars@,
                    utf8_len(s) < usize::MAX,
                    spans_on_boundaries(tv, s),
                    duplicate_error_from(tv, s, 0) is None,
                    reference_error_from(tv, s, 0) == reference_error_from(tv, s, i as int),
                    first_unknown_from(task_names(tv), t.flags.deps, 0) is None,
                    first_bad_command_from(t.flags.args, t.commands, 0) == first_bad_command_from(
                        t.flags.args,
                        t.commands,
                        c as int,
                    ),
                    i < n,
                    t == tv[i as int],
                    task@ == t,
                    t.flags.args == strings_view(task.flags.args@),
                    t.commands == cmds@.map_values(|c: crate::ast::Command| c@),
                    c < cmds.len(),
                    pv == phs@.map_values(|p: String| p@),
                    pv == placeholders(t.commands[c as int].raw),
                    q <= phs.len(),
                    first_undeclared_from(t.flags.args, pv, 0) == first_undeclared_from(
                        t.flags.args,
                        pv,
                        q as int,
                    ),
                decreases phs.len() - q,
            {
                if !contains_string(&task.flags.args, &phs[q]) {
                    assert(pv[q as int] == phs@[q as int]@);
                    assert(first_undeclared_from(t.flags.args, pv, q as int) == Some(pv[q as int]));
                    assert(first_bad_command_from(t.flags.args, t.commands, c as int) == Some(
                        (c as int, pv[q as int]),
                    ));
                    assert(t.commands[c as int].span == cmds@[c as int].span);
                    assert(is_boundary(s, tv[i as int].commands[c as int].span.start as int));
                    let location = offset_to_location_in(chars, cmds[c].span.start);
                    assert(task_reference_error(tv, s, i as int) == Some(
                        ParseErrorView::UndeclaredArgument {
                            task: t.name,
                            arg: pv[q as int],
                            location: location,
                        },
                    ));
                    return Err(
                        ParseError::UndeclaredArgument {
                            task: task.name.clone(),
                            arg: phs[q].clone(),
                            location,
                        },
                    );
                }
                q += 1;
            }
            c += 1;
        }
        i += 1;
    }
    Ok(())
}


// ── Cycle detection ──────────────────────────────────────────────────────────

/// Every colour is white (0, unvisited), grey (1, on the current path) or black (2, done).
pub open spec fn colours_ok(c: Seq<u8>) -> bool {
    forall|v: int| 0 <= v < c.len() ==> #[trigger] c[v] <= 2
}

/// Each black task's dependencies are black, with a lower rank; black ranks are below `cnt`.
pub open spec fn finished_ranked(
    edge: spec_fn(int, int) -> bool,
    n: int,
    c: Seq<u8>,
    rank: Seq<int>,
    cnt: int,
) -> bool {
    &&& rank.len() == n
    &&& c.len() == n
    &&& forall|a: int|
        0 <= a < n && #[trigger] c[a] == 2 ==> rank[a] < cnt && forall|b: int|
            0 <= b < n && #[trigger] edge(a, b) ==> c[b] == 2 && rank[b] < rank[a]
}

/// Number of white entries.
pub open spec fn count_white(c: Seq<u8>) -> nat
    decreases c.len(),
{
    if c.len() == 0 {
        0
    } else {
        count_white(c.drop_last()) + if c.last() == 0 { 1nat } else { 0nat }
    }
}

/// `c1` differs from `c0` only where a white entry turned black.
pub open spec fn only_finished(c0: Seq<u8>, c1: Seq<u8>) -> bool {
    &&& c0.len() == c1.len()
    &&& forall|v: int| 0 <= v < c0.len() ==> #[trigger] c1[v] == c0[v] || (c0[v] == 0 && c1[v] == 2)
}

/// The grey entries are exactly the nodes of `stack`.
pub open spec fn grey_is(c: Seq<u8>, stack: Seq<int>) -> bool {
    forall|v: int| 0 <= v < c.len() ==> (#[trigger] c[v] == 1 <==> stack.contains(v))
}

/// `adj[a][k]` is the index of the task named by the `k`-th dependency of task `a`.
pub open spec fn adj_matches(tasks: Seq<TaskView>, adj: Seq<Vec<usize>>) -> bool {
    &&& adj.len() == tasks.len()
    &&& forall|a: int|
        0 <= a < tasks.len() ==> #[trigger] adj[a]@.len() == tasks[a].flags.deps.len()
    &&& forall|a: int, k: int|
        0 <= a < tasks.len() && 0 <= k < adj[a]@.len() ==> (#[trigger] adj[a]@[k]) < tasks.len()
            && tasks[adj[a]@[k] as int].name == tasks[a].flags.deps[k]
}

proof fn lemma_count_white_mono(c0: Seq<u8>, c1: Seq<u8>)
    requires
        only_finished(c0, c1),
    ensures
        count_white(c1) <= count_white(c0),
    decreases c0.len(),
{
    if c0.len() > 0 {
        let d0 = c0.drop_last();
        let d1 = c1.drop_last();
        assert(only_finished(d0, d1)) by {
            assert forall|v: int| 0 <= v < d0.len() implies #[trigger] d1[v] == d0[v] || (d0[v]
                == 0 && d1[v] == 2) by {
                assert(c1[v] == c0[v] || (c0[v] == 0 && c1[v] == 2));
            }
        }
        lemma_count_white_mono(d0, d1);
        assert(c1[c1.len() - 1] == c0[c0.len() - 1] || (c0[c0.len() - 1] == 0 && c1[c1.len() - 1]
            == 2));
    }
}

pub proof fn lemma_count_white_mark(c: Seq<u8>, v: int, x: u8)
    requires
        0 <= v < c.len(),
        c[v] == 0,
        x != 0,
    ensures
        count_white(c.update(v, x)) + 1 == count_white(c),
    decreases c.len(),
{
    let u = c.update(v, x);
    if v < c.len() - 1 {
        assert(u.drop_last() =~= c.drop_last().update(v, x));
        lemma_count_white_mark(c.drop_last(), v, x);
    } else {
        assert(u.drop_last() =~= c.drop_last());
    }
}

proof fn lemma_edge_of_adj(tasks: Seq<TaskView>, adj: Seq<Vec<usize>>, a: int, k: int)
    requires
        adj_matches(tasks, adj),
        0 <= a < tasks.len(),
        0 <= k < adj[a]@.len(),
    ensures
        dep_edge(tasks)(a, adj[a]@[k] as int),
{
    assert(adj[a]@[k] < tasks.len());
    assert(tasks[a].flags.deps[k] == tasks[adj[a]@[k] as int].name);
}

proof fn lemma_adj_of_edge(tasks: Seq<TaskView>, adj: Seq<Vec<usize>>, a: int, b: int) -> (k: int)
    requires
        adj_matches(tasks, adj),
        names_unique(tasks),
        dep_edge(tasks)(a, b),
    ensures
        0 <= k < adj[a]@.len(),
        adj[a]@[k] == b,
{
    let k = choose|k: int|
        0 <= k < tasks[a].flags.deps.len() && tasks[a].flags.deps[k] == tasks[b].name;
    assert(adj[a]@.len() == tasks[a].flags.deps.len());
    assert(adj[a]@[k] < tasks.len());
    k
}

/// The index of the task that the `k`-th dependency of task `a` names.
pub open spec fn dep_target(tasks: Seq<TaskView>, a: int, k: int) -> int {
    choose|j: int| 0 <= j < tasks.len() && tasks[j].name == tasks[a].flags.deps[k]
}

/// The depth-first search from task `v` under the colouring `c`: the colouring it
/// leaves, and the first edge it finds back to a task on the current path (task `a`'s
/// `k`-th dependency), if any. A task that is not white is not searched again.
pub open spec fn dfs_visit(tasks: Seq<TaskView>, c: Seq<u8>, v: int) -> (Seq<u8>, Option<(int, int)>)
    decreases count_white(c) as int, 0int, 0int,
{
    if 0 <= v < c.len() && c[v] == 0 {
        proof {
            lemma_count_white_mark(c, v, 1);
        }
        dfs_deps(tasks, c.update(v, 1), v, 0)
    } else {
        (c, None)
    }
}

/// The search through the dependencies of task `v` from its `k`-th on: a grey
/// dependency closes a cycle, a white one is searched first, and when all are done `v`
/// turns black.
pub open spec fn dfs_deps(tasks: Seq<TaskView>, c: Seq<u8>, v: int, k: int) -> (
    Seq<u8>,
    Option<(int, int)>,
)
    decreases count_white(c) as int, 1int, tasks[v].flags.deps.len() - k,
{
    if k < 0 || !(0 <= v < tasks.len()) || k >= tasks[v].flags.deps.len() {
        (c.update(v, 2), None)
    } else {
        let d = dep_target(tasks, v, k);
        if !(0 <= d < c.len()) {
            (c, None)
        } else if c[d] == 1 {
            (c, Some((v, k)))
        } else if c[d] == 0 {
            let (c2, r) = dfs_visit(tasks, c, d);
            match r {
                Some(e) => (c2, Some(e)),
                None => if count_white(c2) <= count_white(c) {
                    dfs_deps(tasks, c2, v, k + 1)
                } else {
                    (c2, None)
                },
            }
        } else {
            dfs_deps(tasks, c, v, k + 1)
        }
    }
}

/// The search over all tasks from task `i` on, in declaration order, each white task
/// searched in turn: the first edge found that closes a cycle.
pub open spec fn dfs_scan(tasks: Seq<TaskView>, c: Seq<u8>, i: int) -> Option<(int, int)>
    decreases tasks.len() - i,
{
    if i < 0 || i >= tasks.len() {
        None
    } else if i < c.len() && c[i] == 0 {
        let (c2, r) = dfs_visit(tasks, c, i);
        match r {
            Some(e) => Some(e),
            None => dfs_scan(tasks, c2, i + 1),
        }
    } else {
        dfs_scan(tasks, c, i + 1)
    }
}

/// The edge that cycle detection reports: the first edge back to a task on the current
/// path, in a depth-first search that starts from each task in declaration order and
/// follows dependencies in the order they are listed.
pub open spec fn first_cycle_edge(tasks: Seq<TaskView>) -> Option<(int, int)> {
    dfs_scan(tasks, Seq::new(tasks.len(), |v: int| 0u8), 0)
}

/// The error that reports the edge from task `a` to its `k`-th dependency.
pub open spec fn cycle_error(tasks: Seq<TaskView>, a: int, k: int) -> ParseErrorView {
    ParseErrorView::DependencyCycle { cycle: cycle_text(tasks[a].name, tasks[a].flags.deps[k]) }
}

/// Depth-first search from `node`, colouring as it goes. A dependency found grey closes
/// a cycle; on success `node` and all it reaches are black and ranked.
fn dfs(
    node: usize,
    tasks: &Vec<Task>,
    adj: &Vec<Vec<usize>>,
    colour: &mut Vec<u8>,
    Ghost(tv): Ghost<Seq<TaskView>>,
    Ghost(stack): Ghost<Seq<int>>,
    rank: &mut Ghost<Seq<int>>,
    cnt: &mut Ghost<int>,
) -> (r: Result<(), ParseError>)
    requires
        tv == tasks@.map_values(|t: Task| t@),
        names_unique(tv),
        adj_matches(tv, adj@),
        old(colour)@.len() == tv.len(),
        node < tv.len(),
        old(colour)@[node as int] == 0,
        colours_ok(old(colour)@),
        grey_is(old(colour)@, stack),
        stack.len() > 0 ==> is_path(dep_edge(tv), tv.len() as int, stack) && dep_edge(tv)(
            stack.last(),
            node as int,
        ),
        finished_ranked(dep_edge(tv), tv.len() as int, old(colour)@, old(rank)@, old(cnt)@),
    ensures
        colours_ok(final(colour)@),
        r is Ok ==> final(colour)@[node as int] == 2 && only_finished(old(colour)@, final(colour)@)
            && finished_ranked(
            dep_edge(tv),
            tv.len() as int,
            final(colour)@,
            final(rank)@,
            final(cnt)@,
        ),
        r matches Err(e) ==> reports_cycle_edge(tv, e@),
        r is Ok ==> dfs_visit(tv, old(colour)@, node as int) == (final(colour)@, None::<(int, int)>),
        r matches Err(e) ==> (dfs_visit(tv, old(colour)@, node as int).1 matches Some((a, k)) && e@
            == cycle_error(tv, a, k)),
    decreases count_white(colour@),
{
    let ghost n = tv.len() as int;
    let ghost edge = dep_edge(tv);
    let ghost c0 = colour@;
    colour.set(node, 1);
    let ghost c1 = colour@;
    let ghost stack2 = stack.push(node as int);
    proof {
        lemma_count_white_mark(c0, node as int, 1);
        if stack.len() > 0 {
            lemma_path_extend(edge, n, stack, node as int);
        } else {
            assert(is_path(edge, n, stack2));
        }
        assert(grey_is(c1, stack2)) by {
            assert forall|v: int| 0 <= v < c1.len() implies (#[trigger] c1[v] == 1
                <==> stack2.contains(v)) by {
                if v == node {
                    assert(stack2[stack.len() as int] == v);
                } else {
                    assert(c1[v] == c0[v]);
                    if stack2.contains(v) {
                        let m = choose|m: int| 0 <= m < stack2.len() && stack2[m] == v;
                        assert(stack[m] == v);
                    }
                    if stack.contains(v) {
                        let m = choose|m: int| 0 <= m < stack.len() && stack[m] == v;
                        assert(stack2[m] == v);
                    }
                }
            }
        }
        assert(finished_ranked(edge, n, c1, rank@, cnt@)) by {
            assert forall|a: int| 0 <= a < n && #[trigger] c1[a] == 2 implies rank@[a] < cnt@
                && forall|b: int| 0 <= b < n && #[trigger] edge(a, b) ==> c1[b] == 2 && rank@[b]
                < rank@[a] by {
                assert(c0[a] == 2);
                assert forall|b: int| 0 <= b < n && #[trigger] edge(a, b) implies c1[b] == 2
                    && rank@[b] < rank@[a] by {
                    assert(c0[b] == 2);
                }
            }
        }
    }
    let deps = &adj[node];
    proof {
        assert(dfs_visit(tv, c0, node as int) == dfs_deps(tv, c1, node as int, 0));
    }
    let mut k: usize = 0;
    while k < deps.len()
        invariant
            dfs_visit(tv, c0, node as int) == dfs_deps(tv, colour@, node as int, k as int),
            tv == tasks@.map_values(|t: Task| t@),
            n == tv.len(),
            edge == dep_edge(tv),
            names_unique(tv),
            adj_matches(tv, adj@),
            node < n,
            deps@ == adj@[node as int]@,
            colour@.len() == n,
            colours_ok(colour@),
            colour@[node as int] == 1,
            c1 == c0.update(node as int, 1),
            c0.len() == n,
            c0 == old(colour)@,
            count_white(c1) + 1 == count_white(c0),
            only_finished(c1, colour@),
            grey_is(colour@, stack2),
            stack2.last() == node,
            is_path(edge, n, stack2),
            finished_ranked(edge, n, colour@, rank@, cnt@),
            k <= deps.len(),
            forall|j: int| 0 <= j < k ==> colour@[#[trigger] deps@[j] as int] == 2,
        decreases deps.len() - k,
    {
        let d = deps[k];
        let ghost ck = colour@;
        proof {
            lemma_edge_of_adj(tv, adj@, node as int, k as int);
            assert(tv[d as int].name == tv[node as int].flags.deps[k as int]);
            let j = dep_target(tv, node as int, k as int);
            assert(0 <= j < tv.len() && tv[j].name == tv[node as int].flags.deps[k as int]);
            assert(j == d as int);
        }
        if colour[d] == 1 {
            // `d` is on the current path: the path from `d` to `node`, then the edge back.
            proof {
                assert(stack2.contains(d as int));
                let m = choose|m: int| 0 <= m < stack2.len() && stack2[m] == d;
                lemma_subpath(edge, n, stack2, m, stack2.len() as int);
                let p = stack2.subrange(m, stack2.len() as int);
                assert(p[0] == d && p.last() == node);
                assert(reaches(edge, n, d as int, node as int));
            }
            let task = &tasks[node];
            let dep = &task.flags.deps[k];
            let mut cycle = String::new();
            cycle.append(task.name.as_str());
            cycle.append(" → ");
            cycle.append(dep.as_str());
            proof {
                reveal_strlit(" → ");
                assert(tv[node as int] == tasks@[node as int]@);
                assert(tv[node as int].flags.deps[k as int] == dep@);
                assert(cycle@ =~= cycle_text(tv[node as int].name, tv[node as int].flags.deps[k as int]));
                assert(tv[d as int].name == tv[node as int].flags.deps[k as int]);
            }
            return Err(ParseError::DependencyCycle { cycle });
        }
        if colour[d] == 0 {
            let ghost cb = colour@;
            proof {
                lemma_count_white_mono(c1, cb);
                assert(count_white(cb) < count_white(c0));
            }
            match dfs(d, tasks, adj, colour, Ghost(tv), Ghost(stack2), rank, cnt) {
                Ok(()) => {},
                Err(e) => {
                    return Err(e);
                },
            }
            proof {
                lemma_count_white_mono(cb, colour@);
                assert(dfs_deps(tv, cb, node as int, k as int) == dfs_deps(tv, colour@, node as int, k + 1));
                assert(only_finished(c1, colour@)) by {
                    assert forall|v: int| 0 <= v < c1.len() implies #[trigger] colour@[v] == c1[v]
                        || (c1[v] == 0 && colour@[v] == 2) by {
                        assert(colour@[v] == cb[v] || (cb[v] == 0 && colour@[v] == 2));
                        assert(cb[v] == c1[v] || (c1[v] == 0 && cb[v] == 2));
                    }
                }
                assert(grey_is(colour@, stack2)) by {
                    assert forall|v: int| 0 <= v < colour@.len() implies (#[trigger] colour@[v]
                        == 1 <==> stack2.contains(v)) by {
                        assert(colour@[v] == cb[v] || (cb[v] == 0 && colour@[v] == 2));
                        assert(cb[v] == 1 <==> stack2.contains(v));
                    }
                }
                assert forall|j: int| 0 <= j < k implies colour@[#[trigger] deps@[j] as int]
                    == 2 by {
                    let w = deps@[j] as int;
                    assert(cb[w] == 2);
                    assert(colour@[w] == cb[w] || (cb[w] == 0 && colour@[w] == 2));
                }
            }
        }
        assert(colour@[d as int] == 2);
        proof {
            if ck[d as int] == 2 {
                assert(dfs_deps(tv, ck, node as int, k as int) == dfs_deps(tv, ck, node as int, k + 1));
            }
        }
        k += 1;
    }
    let ghost c2 = colour@;
    colour.set(node, 2);
    proof {
        let old_rank = rank@;
        rank@ = rank@.update(node as int, cnt@);
        let rank_v = rank@;
        let cnt_v = cnt@;
        cnt@ = cnt@ + 1;
        let c3 = colour@;
        assert(only_finished(c0, c3)) by {
            assert forall|v: int| 0 <= v < c0.len() implies #[trigger] c3[v] == c0[v] || (c0[v]
                == 0 && c3[v] == 2) by {
                if v != node {
                    assert(c2[v] == c1[v] || (c1[v] == 0 && c2[v] == 2));
                }
            }
        }
        assert(finished_ranked(edge, n, c3, rank@, cnt@)) by {
            assert forall|a: int| 0 <= a < n && #[trigger] c3[a] == 2 implies rank@[a] < cnt@
                && forall|b: int| 0 <= b < n && #[trigger] edge(a, b) ==> c3[b] == 2 && rank@[b]
                < rank@[a] by {
                if a == node {
                    assert forall|b: int| 0 <= b < n && #[trigger] edge(a, b) implies c3[b] == 2
                        && rank@[b] < rank@[a] by {
                        let j = lemma_adj_of_edge(tv, adj@, a, b);
                        assert(c2[deps@[j] as int] == 2);
                        assert(b != node);
                        assert(old_rank[b] < cnt_v);
                    }
                } else {
                    assert(c2[a] == 2);
                    assert forall|b: int| 0 <= b < n && #[trigger] edge(a, b) implies c3[b] == 2
                        && rank@[b] < rank@[a] by {
                        assert(c2[b] == 2);
                        assert(b != node);
                    }
                }
            }
        }
        assert(colours_ok(c3)) by {
            assert forall|v: int| 0 <= v < c3.len() implies #[trigger] c3[v] <= 2 by {
                if v != node {
                    assert(c2[v] <= 2);
                }
            }
        }
    }
    Ok(())
}


proof fn lemma_no_duplicate(tasks: Seq<TaskView>, s: Seq<char>, i: int)
    requires
        0 <= i,
        duplicate_error_from(tasks, s, i) is None,
    ensures
        forall|j: int| i <= j < tasks.len() ==> !has_earlier_twin(tasks, j),
    decreases tasks.len() - i,
{
    if i < tasks.len() {
        lemma_no_duplicate(tasks, s, i + 1);
    }
}

proof fn lemma_unique_names(tasks: Seq<TaskView>, s: Seq<char>)
    requires
        duplicate_error_from(tasks, s, 0) is None,
    ensures
        names_unique(tasks),
{
    lemma_no_duplicate(tasks, s, 0);
    assert forall|i: int, j: int|
        0 <= i < tasks.len() && 0 <= j < tasks.len() && i != j implies tasks[i].name
        != tasks[j].name by {
        if i < j {
            assert(!has_earlier_twin(tasks, j));
        } else {
            assert(!has_earlier_twin(tasks, i));
        }
    }
}

proof fn lemma_known_from(names: Seq<Seq<char>>, deps: Seq<Seq<char>>, k: int)
    requires
        0 <= k,
        first_unknown_from(names, deps, k) is None,
    ensures
        forall|j: int| k <= j < deps.len() ==> names.contains(deps[j]),
    decreases deps.len() - k,
{
    if k < deps.len() {
        lemma_known_from(names, deps, k + 1);
    }
}

proof fn lemma_no_reference_error(tasks: Seq<TaskView>, s: Seq<char>, i: int)
    requires
        0 <= i,
        reference_error_from(tasks, s, i) is None,
    ensures
        forall|j: int| i <= j < tasks.len() ==> task_reference_error(tasks, s, j) is None,
    decreases tasks.len() - i,
{
    if i < tasks.len() {
        lemma_no_reference_error(tasks, s, i + 1);
    }
}

/// Every `{{name}}` placeholder of every command is one of its task's arguments.
pub open spec fn placeholders_declared(tasks: Seq<TaskView>) -> bool {
    forall|i: int, c: int, q: int|
        0 <= i < tasks.len() && 0 <= c < tasks[i].commands.len() && 0 <= q < placeholders(
            tasks[i].commands[c].raw,
        ).len() ==> tasks[i].flags.args.contains(
            #[trigger] placeholders(tasks[i].commands[c].raw)[q],
        )
}

proof fn lemma_declared_from(args: Seq<Seq<char>>, phs: Seq<Seq<char>>, k: int)
    requires
        0 <= k,
        first_undeclared_from(args, phs, k) is None,
    ensures
        forall|q: int| k <= q < phs.len() ==> args.contains(phs[q]),
    decreases phs.len() - k,
{
    if k < phs.len() {
        lemma_declared_from(args, phs, k + 1);
    }
}

proof fn lemma_good_commands_from(args: Seq<Seq<char>>, cmds: Seq<crate::ast::CommandView>, c: int)
    requires
        0 <= c,
        first_bad_command_from(args, cmds, c) is None,
    ensures
        forall|m: int, q: int|
            c <= m < cmds.len() && 0 <= q < placeholders(cmds[m].raw).len() ==> args.contains(
                #[trigger] placeholders(cmds[m].raw)[q],
            ),
    decreases cmds.len() - c,
{
    if c < cmds.len() {
        lemma_declared_from(args, placeholders(cmds[c].raw), 0);
        lemma_good_commands_from(args, cmds, c + 1);
    }
}

/// With no structural error, every placeholder is declared.
pub proof fn lemma_placeholders_declared(tasks: Seq<TaskView>, s: Seq<char>)
    requires
        reference_error_from(tasks, s, 0) is None,
    ensures
        placeholders_declared(tasks),
{
    lemma_no_reference_error(tasks, s, 0);
    assert forall|i: int, c: int, q: int|
        0 <= i < tasks.len() && 0 <= c < tasks[i].commands.len() && 0 <= q < placeholders(
            tasks[i].commands[c].raw,
        ).len() implies tasks[i].flags.args.contains(
        #[trigger] placeholders(tasks[i].commands[c].raw)[q],
    ) by {
        assert(task_reference_error(tasks, s, i) is None);
        lemma_known_from(task_names(tasks), tasks[i].flags.deps, 0);
        if first_unknown_from(task_names(tasks), tasks[i].flags.deps, 0) is None {
            lemma_good_commands_from(tasks[i].flags.args, tasks[i].commands, 0);
        }
    }
}

/// With no structural error, names are unique and every dependency is known.
pub proof fn lemma_structurally_sound(tasks: Seq<TaskView>, s: Seq<char>)
    requires
        structural_error(tasks, s) is None,
    ensures
        names_unique(tasks),
        deps_known(tasks),
        placeholders_declared(tasks),
{
    lemma_unique_names(tasks, s);
    lemma_deps_known(tasks, s);
    lemma_placeholders_declared(tasks, s);
}

/// Every dependency of every task names some task.
pub open spec fn deps_known(tasks: Seq<TaskView>) -> bool {
    forall|i: int, k: int|
        0 <= i < tasks.len() && 0 <= k < tasks[i].flags.deps.len() ==> task_names(
            tasks,
        ).contains(#[trigger] tasks[i].flags.deps[k])
}

proof fn lemma_deps_known(tasks: Seq<TaskView>, s: Seq<char>)
    requires
        reference_error_from(tasks, s, 0) is None,
    ensures
        deps_known(tasks),
{
    lemma_no_reference_error(tasks, s, 0);
    assert forall|i: int, k: int|
        0 <= i < tasks.len() && 0 <= k < tasks[i].flags.deps.len() implies task_names(
        tasks,
    ).contains(#[trigger] tasks[i].flags.deps[k]) by {
        assert(task_reference_error(tasks, s, i) is None);
        lemma_known_from(task_names(tasks), tasks[i].flags.deps, 0);
    }
}

/// A reported cycle edge is part of a cycle.
proof fn lemma_report_is_cycle(tasks: Seq<TaskView>, e: ParseErrorView)
    requires
        reports_cycle_edge(tasks, e),
    ensures
        has_dependency_cycle(tasks),
{
    let n = tasks.len() as int;
    let edge = dep_edge(tasks);
    let (a, k, b) = choose|a: int, k: int, b: int|
        {
            &&& 0 <= a < tasks.len()
            &&& 0 <= k < tasks[a].flags.deps.len()
            &&& 0 <= b < tasks.len()
            &&& tasks[b].name == tasks[a].flags.deps[k]
            &&& reaches(dep_edge(tasks), tasks.len() as int, b, a)
            &&& e == ParseErrorView::DependencyCycle {
                cycle: cycle_text(tasks[a].name, tasks[a].flags.deps[k]),
            }
        };
    let p = choose|p: Seq<int>| is_path(edge, n, p) && p[0] == b && p.last() == a;
    assert(edge(a, b));
    let q = seq![a];
    assert(is_path(edge, n, q));
    lemma_path_extend(edge, n, q, b);
    crate::paths::lemma_path_join(edge, n, q.push(b), p);
    let c = q.push(b) + p.drop_first();
    assert(is_path(edge, n, c) && c.len() >= 2 && c[0] == c.last());
}

/// Second-pass validation of a complete Mossfile. In order: duplicate task names,
/// then, task by task, unknown dependencies and undeclared `{{arg}}` placeholders,
/// then dependency cycles (depth-first, with three colours).
pub(crate) fn validate(mossfile: &Mossfile, chars: &Vec<char>) -> (r: Result<(), ParseError>)
    requires
        utf8_len(chars@) < usize::MAX,
        spans_on_boundaries(mossfile@.tasks, chars@),
    ensures
        match structural_error(mossfile@.tasks, chars@) {
            Some(e) => r matches Err(x) && x@ == e,
            None => (r is Ok <==> !has_dependency_cycle(mossfile@.tasks)) && (r matches Err(x)
                ==> reports_cycle_edge(mossfile@.tasks, x@)) && match first_cycle_edge(
                mossfile@.tasks,
            ) {
                Some((a, k)) => r matches Err(x) && x@ == cycle_error(mossfile@.tasks, a, k),
                None => r is Ok,
            },
        },
{
    match structural_check(mossfile, chars) {
        Ok(()) => {},
        Err(e) => {
            return Err(e);
        },
    }
    let tasks = &mossfile.tasks;
    let ghost tv = mossfile@.tasks;
    let ghost n = tv.len() as int;
    let ghost edge = dep_edge(tv);
    proof {
        lemma_unique_names(tv, chars@);
        lemma_deps_known(tv, chars@);
        assert(tv =~= tasks@.map_values(|t: Task| t@));
    }
    // Resolve every dependency name to the index of its task.
    let mut adj: Vec<Vec<usize>> = Vec::new();
    let mut i: usize = 0;
    while i < tasks.len()
        invariant
            tv == tasks@.map_values(|t: Task| t@),
            tasks == &mossfile.tasks,
            deps_known(tv),
            i <= tasks.len(),
            adj@.len() == i,
            forall|a: int| 0 <= a < i ==> #[trigger] adj@[a]@.len() == tv[a].flags.deps.len(),
            forall|a: int, k: int|
                0 <= a < i && 0 <= k < adj@[a]@.len() ==> (#[trigger] adj@[a]@[k]) < tv.len()
                    && tv[adj@[a]@[k] as int].name == tv[a].flags.deps[k],
        decreases tasks.len() - i,
    {
        let deps = &tasks[i].flags.deps;
        assert(tv[i as int].flags.deps == strings_view(deps@));
        let mut row: Vec<usize> = Vec::new();
        let mut k: usize = 0;
        while k < deps.len()
            invariant
                tv == tasks@.map_values(|t: Task| t@),
                deps_known(tv),
                i < tasks.len(),
                deps == &tasks@[i as int].flags.deps,
                tv[i as int].flags.deps == strings_view(deps@),
                k <= deps.len(),
                row@.len() == k,
                forall|j: int| 0 <= j < k ==> (#[trigger] row@[j]) < tv.len() && tv[row@[j] as int].name
                    == tv[i as int].flags.deps[j],
            decreases deps.len() - k,
        {
            let found = name_index(tasks, &deps[k]);
            proof {
                assert(task_names(tv).contains(tv[i as int].flags.deps[k as int]));
                if found is None {
                    let m = choose|m: int|
                        0 <= m < task_names(tv).len() && task_names(tv)[m] == tv[i as int].flags.deps[k as int];
                    assert(tv[m] == tasks@[m]@);
                }
            }
            let m = found.unwrap();
            assert(tv[m as int] == tasks@[m as int]@);
            row.push(m);
            k += 1;
        }
        adj.push(row);
        i += 1;
    }
    assert(adj_matches(tv, adj@));
    // Colour every task, depth first.
    let mut colour: Vec<u8> = Vec::new();
    let mut i: usize = 0;
    while i < tasks.len()
        invariant
            i <= tasks.len(),
            colour@.len() == i,
            forall|v: int| 0 <= v < i ==> #[trigger] colour@[v] == 0,
        decreases tasks.len() - i,
    {
        colour.push(0);
        i += 1;
    }
    proof {
        assert(colour@ =~= Seq::new(n as nat, |v: int| 0u8));
    }
    let mut rank: Ghost<Seq<int>> = Ghost(Seq::new(n as nat, |v: int| 0));
    let mut cnt: Ghost<int> = Ghost(0);
    let mut i: usize = 0;
    while i < tasks.len()
        invariant
            tv == tasks@.map_values(|t: Task| t@),
            n == tv.len(),
            edge == dep_edge(tv),
            names_unique(tv),
            adj_matches(tv, adj@),
            colour@.len() == n,
            colours_ok(colour@),
            forall|v: int| 0 <= v < n ==> #[trigger] colour@[v] != 1,
            forall|v: int| 0 <= v < i ==> #[trigger] colour@[v] == 2,
            finished_ranked(edge, n, colour@, rank@, cnt@),
            i <= n,
            tv == mossfile@.tasks,
            structural_error(mossfile@.tasks, chars@) is None,
            first_cycle_edge(tv) == dfs_scan(tv, colour@, i as int),
        decreases tasks.len() - i,
    {
        let ghost ci = colour@;
        if colour[i] == 0 {
            let ghost cb = colour@;
            assert(grey_is(cb, Seq::<int>::empty()));
            match dfs(i, tasks, &adj, &mut colour, Ghost(tv), Ghost(Seq::empty()), &mut rank, &mut cnt) {
                Ok(()) => {},
                Err(e) => {
                    proof {
                        lemma_report_is_cycle(tv, e@);
                    }
                    return Err(e);
                },
            }
            assert(dfs_scan(tv, cb, i as int) == dfs_scan(tv, colour@, i + 1));
            assert forall|v: int| 0 <= v < n implies #[trigger] colour@[v] != 1 by {
                assert(colour@[v] == cb[v] || (cb[v] == 0 && colour@[v] == 2));
            }
            assert forall|v: int| 0 <= v < i implies #[trigger] colour@[v] == 2 by {
                assert(colour@[v] == cb[v] || (cb[v] == 0 && colour@[v] == 2));
            }
        } else {
            assert(colour@[i as int] <= 2);
            assert(dfs_scan(tv, ci, i as int) == dfs_scan(tv, ci, i + 1));
        }
        i += 1;
    }
    proof {
        assert(ranks_edges(edge, n, rank@)) by {
            assert forall|a: int, b: int| 0 <= a < n && 0 <= b < n && #[trigger] edge(a, b) implies rank@[b] < rank@[a] by {
                assert(colour@[a] == 2);
            }
        }
        lemma_ranked_acyclic(edge, n, rank@);
    }
    Ok(())
}

} // verus!
