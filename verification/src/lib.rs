//! Moss: a task runner's library. It reads a `Mossfile` (lexer, parser and
//! validation), orders tasks by their dependencies, and makes the decisions of running
//! them: argument substitution, the plan of a run, fail-fast bookkeeping, readiness and
//! file-watch matching.
pub mod ast;
pub mod error;
pub mod flag_order;
pub mod graph;
pub mod lexer;
pub mod output;
pub mod parallel;
pub mod parser;
pub mod ready;
pub mod run_error;
pub mod runner;
pub mod paths;
pub mod text;
pub mod validate;
pub mod watcher;

pub use ast::{Command, Mossfile, Settings, Span, Task, TaskFlags, WatchConfig};
pub use error::ParseError;
pub use graph::DependencyGraph;
pub use run_error::RunError;

use vstd::prelude::*;

verus! {

/// What parsing `src` yields: its first lexical error, or else the outcome of parsing
/// and validating its tokens.
pub open spec fn parse_result_is(r: Result<ast::Mossfile, error::ParseError>, src: Seq<char>) -> bool {
    parser::parse_outcome(
        r,
        match lexer::spec_tokenize(src) {
            Err(e) => Err(e),
            Ok(t) => parser::parse_tree(t, src),
        },
        src,
    )
}

/// Parse a Mossfile source string into a [`Mossfile`].
///
/// Returns a [`ParseError`] for a lexical or syntax error, a duplicate task name, an
/// unknown dependency, an undeclared `{{arg}}` placeholder, or a dependency cycle.
pub fn parse(src: &str) -> (r: Result<ast::Mossfile, error::ParseError>)
    requires
        text::utf8_len(src@) < usize::MAX,
    ensures
        parse_result_is(r, src@),
{
    let lexer = lexer::Lexer::new(src);
    let tokens = match lexer.tokenize() {
        Ok(tokens) => tokens,
        Err(e) => {
            return Err(e);
        },
    };
    proof {
        lexer::lemma_tokenize_shape(src@, 0, Seq::empty());
    }
    parser::Parser::new(tokens, src).parse()
}

/// A Mossfile that parses is valid: task names are unique, every dependency names a
/// declared task, every `{{placeholder}}` is a declared argument, following
/// dependencies never leads back to a task, and every task has a body.
pub proof fn law_parsed_mossfile_is_valid(src: Seq<char>, r: Result<ast::Mossfile, error::ParseError>)
    requires
        parse_result_is(r, src),
        r is Ok,
    ensures
        validate::names_unique(r->Ok_0@.tasks),
        validate::deps_known(r->Ok_0@.tasks),
        validate::placeholders_declared(r->Ok_0@.tasks),
        !validate::has_dependency_cycle(r->Ok_0@.tasks),
        forall|k: int|
            0 <= k < r->Ok_0@.tasks.len() ==> parser::body_nonempty(#[trigger] r->Ok_0@.tasks[k]),
{
    let tree = match lexer::spec_tokenize(src) {
        Err(e) => Err(e),
        Ok(t) => parser::parse_tree(t, src),
    };
    let mf = tree->Ok_0;
    validate::lemma_structurally_sound(mf.tasks, src);
    if let Ok(t) = lexer::spec_tokenize(src) {
        if let Ok((settings, c)) = parser::settings_lines(
            t,
            0,
            ast::SettingsView { project: None, shell: None },
            src,
        ) {
            parser::lemma_task_decls_nonempty(t, c, Seq::empty(), src);
        }
    }
}

/// For a Mossfile that parses, an execution order of `target` in its dependency graph
/// lists exactly the tasks that `target` leads to: every prerequisite runs,
/// dependencies first, `target` last.
pub proof fn law_parsed_execution_order_complete(
    src: Seq<char>,
    r: Result<ast::Mossfile, error::ParseError>,
    target: Seq<char>,
    order: Seq<Seq<char>>,
)
    requires
        parse_result_is(r, src),
        r is Ok,
        graph::is_execution_order(graph::graph_of(r->Ok_0@.tasks), target, order),
    ensures
        forall|x: Seq<char>|
            order.contains(x) <==> graph::leads_to(graph::graph_of(r->Ok_0@.tasks), target, x),
{
    let tasks = r->Ok_0@.tasks;
    law_parsed_mossfile_is_valid(src, r);
    graph::law_graph_of_valid_tasks(tasks);
    graph::law_execution_order_complete(graph::graph_of(tasks), target, order);
}

/// Lexing a source that lexes ends the tokens with `Newline` then `Eof`, so that the
/// parser has clean sentinels.
pub proof fn law_tokens_end_with_newline_then_eof(src: Seq<char>)
    requires
        text::utf8_len(src) < usize::MAX,
    ensures
        lexer::spec_tokenize(src) matches Ok(ts) ==> {
            &&& ts.len() >= 2
            &&& ts[ts.len() - 2].kind == lexer::TokenKindView::Newline
            &&& ts.last().kind == lexer::TokenKindView::Eof
        },
{
    lexer::lemma_tokenize_shape(src, 0, Seq::empty());
}

/// For a Mossfile that parses, the plan of running `target` runs every task that
/// `target` leads to exactly once,
/// in the execution order (dependencies first), the target last with its arguments,
/// and reports no missing task.
pub proof fn law_parsed_plan_runs_prerequisites(
    src: Seq<char>,
    r: Result<ast::Mossfile, error::ParseError>,
    target: Seq<char>,
    args: Seq<Seq<char>>,
    order: Seq<Seq<char>>,
    plan: runner::RunPlan,
)
    requires
        parse_result_is(r, src),
        r is Ok,
        graph::graph_of(r->Ok_0@.tasks).contains_key(target),
        graph::is_execution_order(graph::graph_of(r->Ok_0@.tasks), target, order),
        runner::plan_follows(r->Ok_0@.tasks, order, target, args, plan),
    ensures
        plan.missing is None,
        plan.runs.len() == order.len(),
        forall|i: int| 0 <= i < order.len() ==> (#[trigger] plan.runs@[i])@.task == order[i],
        forall|x: Seq<char>|
            order.contains(x) <==> graph::leads_to(graph::graph_of(r->Ok_0@.tasks), target, x),
        plan.runs@[order.len() - 1]@ == runner::run_of(
            r->Ok_0@.tasks[runner::first_named(r->Ok_0@.tasks, target)->0],
            args,
        ),
{
    let tasks = r->Ok_0@.tasks;
    let m = graph::graph_of(tasks);
    law_parsed_mossfile_is_valid(src, r);
    law_parsed_execution_order_complete(src, r, target, order);
    let pre = order.len() - 1;
    assert forall|i: int| 0 <= i < order.len() implies runner::first_named(
        tasks,
        #[trigger] order[i],
    ) matches Some(k) && tasks[k].name == order[i] by {
        graph::lemma_reached_is_task(tasks, target, order[i]);
        runner::lemma_first_named_from(tasks, order[i], 0);
    }
    runner::lemma_first_missing_skip(tasks, order, 0, pre, pre);
    assert(order[pre] == target);
    assert(runner::first_named(tasks, order[pre]) is Some);
}

} // verus!
