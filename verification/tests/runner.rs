use moss::parse;
use moss::runner::{command_outcome, default_shell, first_action, next_action, RunAction, RunEvent, Runner, RunnerConfig};
use moss::RunError;

fn plan_of(src: &str, task: &str, args: &[&str]) -> Result<moss::runner::RunPlan, RunError> {
    let mf = parse(src).unwrap();
    let args: Vec<String> = args.iter().map(|a| a.to_string()).collect();
    Runner::new(&mf).plan(task, &args)
}

#[test]
fn runner_default_config() {
    let c = RunnerConfig::default();
    assert_eq!(c.shell, "sh");
    assert!(!c.echo_commands);
}

#[test]
fn runner_new_prefers_mossfile_shell() {
    let mf = parse("shell = \"bash\"\ntask a:\n  echo a\n").unwrap();
    assert_eq!(Runner::new(&mf).config().shell, "bash");
    let mf = parse("task a:\n  echo a\n").unwrap();
    assert_eq!(Runner::new(&mf).config().shell, "sh");
}

#[test]
fn runner_with_config_replaces_config() {
    let mf = parse("task a:\n  echo a\n").unwrap();
    let r = Runner::new(&mf).with_config(RunnerConfig { shell: "zsh".to_string(), echo_commands: true });
    assert_eq!(r.config().shell, "zsh");
    assert!(r.config().echo_commands);
}

#[test]
fn runner_default_shell() {
    assert_eq!(default_shell(true), "cmd");
    assert_eq!(default_shell(false), "sh");
}

#[test]
fn plan_simple_task() {
    let plan = plan_of("task greet:\n  echo hello\n", "greet", &[]).unwrap();
    assert_eq!(plan.runs.len(), 1);
    assert_eq!(plan.runs[0].task, "greet");
    assert_eq!(plan.runs[0].commands, vec!["echo hello"]);
    assert!(!plan.runs[0].parallel);
    assert!(plan.missing.is_none());
    assert!(plan.watch.is_none());
}

#[test]
fn plan_unknown_task_error() {
    let r = plan_of("task build:\n  cargo build\n", "nonexistent", &[]);
    assert!(matches!(r, Err(RunError::TaskNotFound(ref n)) if n == "nonexistent"));
}

#[test]
fn plan_deps_run_before_target() {
    let src = "task setup:\n  echo setup\ntask build deps=[setup]:\n  echo build\n";
    let plan = plan_of(src, "build", &[]).unwrap();
    let names: Vec<&str> = plan.runs.iter().map(|r| r.task.as_str()).collect();
    assert_eq!(names, vec!["setup", "build"]);
}

#[test]
fn plan_transitive_deps_in_order() {
    let src = "task lint:\n  echo lint\ntask build deps=[lint]:\n  echo build\ntask test deps=[build]:\n  echo test\n";
    let plan = plan_of(src, "test", &[]).unwrap();
    let names: Vec<&str> = plan.runs.iter().map(|r| r.task.as_str()).collect();
    assert_eq!(names, vec!["lint", "build", "test"]);
}

#[test]
fn plan_arg_substitution() {
    let plan = plan_of("task greet args=[name]:\n  echo hello {{name}}\n", "greet", &["world"]).unwrap();
    assert_eq!(plan.runs[0].commands, vec!["echo hello world"]);
}

#[test]
fn plan_multiple_args_substituted() {
    let src = "task copy args=[src, dst]:\n  echo {{src}} {{dst}}\n";
    let plan = plan_of(src, "copy", &["file.txt", "backup.txt"]).unwrap();
    assert_eq!(plan.runs[0].commands, vec!["echo file.txt backup.txt"]);
}

#[test]
fn plan_missing_arg_keeps_placeholder() {
    let src = "task copy args=[src, dst]:\n  echo {{src}} {{dst}}\n";
    let plan = plan_of(src, "copy", &["file.txt"]).unwrap();
    assert_eq!(plan.runs[0].commands, vec!["echo file.txt {{dst}}"]);
}

#[test]
fn plan_extra_args_ignored_and_repeated_placeholder() {
    let src = "task twice args=[x]:\n  echo {{x}}{{x}} {x}\n";
    let plan = plan_of(src, "twice", &["ab", "unused"]).unwrap();
    assert_eq!(plan.runs[0].commands, vec!["echo abab {x}"]);
}

#[test]
fn plan_prerequisites_get_no_args() {
    let src = "task pre args=[x]:\n  echo pre {{x}}\ntask main deps=[pre] args=[x]:\n  echo main {{x}}\n";
    let plan = plan_of(src, "main", &["v"]).unwrap();
    assert_eq!(plan.runs[0].commands, vec!["echo pre {{x}}"]);
    assert_eq!(plan.runs[1].commands, vec!["echo main v"]);
}

#[test]
fn plan_parallel_and_watch() {
    let plan = plan_of("task ping parallel:\n  echo one\n  echo two\n", "ping", &[]).unwrap();
    assert!(plan.runs[0].parallel);
    assert_eq!(plan.runs[0].commands, vec!["echo one", "echo two"]);
    let plan = plan_of("task serve watch=\"src/**/*.rs\":\n  cargo run\n", "serve", &[]).unwrap();
    assert_eq!(plan.watch, Some("src/**/*.rs".to_string()));
}

#[test]
fn plan_for_order_stops_at_unknown_name() {
    let mf = parse("task a:\n  echo a\ntask b:\n  echo b\n").unwrap();
    let runner = Runner::new(&mf);
    let order = vec!["a", "ghost", "b"];
    let plan = runner.plan_for_order(&order, "b", &[]);
    assert_eq!(plan.runs.len(), 1);
    assert_eq!(plan.runs[0].task, "a");
    assert_eq!(plan.missing, Some("ghost".to_string()));
    assert!(plan.watch.is_none());
}

#[test]
fn outcome_of_a_command() {
    assert!(command_outcome("t", "c", true, Some(0), true).is_ok());
    assert!(matches!(
        command_outcome("t", "exit 1", false, Some(1), true),
        Err(RunError::CommandFailed { code: 1, ref cmd, ref task }) if cmd == "exit 1" && task == "t"
    ));
    assert!(matches!(
        command_outcome("t", "c", false, None, true),
        Err(RunError::CommandKilled { .. })
    ));
    assert!(matches!(
        command_outcome("t", "c", false, None, false),
        Err(RunError::CommandFailed { code: -1, .. })
    ));
}

#[test]
fn plan_carries_ready_pattern() {
    let src = "task server ready=\"Listening on port\":\n  cargo run\ntask e2e deps=[server]:\n  npx playwright test\n";
    let plan = plan_of(src, "e2e", &[]).unwrap();
    assert_eq!(plan.runs[0].task, "server");
    assert_eq!(plan.runs[0].ready, Some("Listening on port".to_string()));
    assert_eq!(plan.runs[1].ready, None);
}

#[test]
fn run_steps_follow_the_plan() {
    let src = "task server ready=\"up\":\n  serve\ntask setup:\n  echo s\ntask e2e deps=[server, setup]:\n  test\n";
    let plan = plan_of(src, "e2e", &[]).unwrap();
    assert_eq!(plan.runs.len(), 3);
    let pos = |n: &str| plan.runs.iter().position(|r| r.task == n).unwrap();
    let s = pos("server");
    // The first action starts the first run; a ready prerequisite only until ready.
    match first_action(&plan) {
        RunAction::StartUntilReady(0) => assert_eq!(s, 0),
        RunAction::RunToEnd(0) => assert_ne!(s, 0),
        _ => panic!("unexpected first action"),
    }
    match next_action(&plan, 2, RunEvent::Finished(Ok(()))) {
        RunAction::Done => {}
        _ => panic!("expected the run to be done"),
    }
    match next_action(&plan, 0, RunEvent::Finished(Err(RunError::TaskNotFound("x".to_string())))) {
        RunAction::Fail(RunError::TaskNotFound(n)) => assert_eq!(n, "x"),
        _ => panic!("expected the failure to stop the run"),
    }
}

#[test]
fn run_steps_watch_and_missing() {
    let plan = plan_of("task serve watch=\"src/*\":\n  cargo run\n", "serve", &[]).unwrap();
    assert!(matches!(first_action(&plan), RunAction::RunToEnd(0)));
    assert!(matches!(next_action(&plan, 0, RunEvent::Finished(Ok(()))), RunAction::WaitForChange));
    assert!(matches!(next_action(&plan, 0, RunEvent::Changed), RunAction::RunToEnd(0)));

    let mf = parse("task a:\n  echo a\n").unwrap();
    let runner = Runner::new(&mf);
    let plan = runner.plan_for_order(&vec!["ghost", "a"], "a", &[]);
    assert!(matches!(first_action(&plan), RunAction::Fail(RunError::TaskNotFound(ref n)) if n == "ghost"));
    let plan = runner.plan_for_order(&vec!["a", "a"], "a", &[]);
    assert!(matches!(next_action(&plan, 0, RunEvent::Ready), RunAction::RunToEnd(1)));
}

#[test]
fn plan_values_are_not_substituted_again() {
    let src = "task t args=[a, b]:\n  echo {{a}} {{b}}\n";
    let plan = plan_of(src, "t", &["{{b}}", "X"]).unwrap();
    assert_eq!(plan.runs[0].commands, vec!["echo {{b}} X"]);
}
