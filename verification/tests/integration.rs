use moss::{parse, ParseError};

#[test]
fn test_full_mossfile() {
    let src = r#"
# Global settings
project = "my-app"
shell   = "sh"

# Simple task
task build:
  cargo build --release

# Task with description and dependency
task test deps=[build]:
  desc = "Run all tests"
  cargo test

# Parallel task with two commands
task dev parallel:
  cargo watch -x run
  npm run dev

# Watch + ready flags
task serve watch="src/**/*.rs" ready="Listening on":
  cargo run

# Task with arguments
task deploy args=[env]:
  ./deploy.sh {{env}}
"#;

    let mf = parse(src).unwrap();

    assert_eq!(mf.settings.project, Some("my-app".to_string()));
    assert_eq!(mf.settings.shell, Some("sh".to_string()));

    assert_eq!(mf.tasks.len(), 5);

    let build = &mf.tasks[0];
    assert_eq!(build.name, "build");
    assert_eq!(build.commands[0].raw, "cargo build --release");

    let test = &mf.tasks[1];
    assert_eq!(test.flags.deps, vec!["build"]);
    assert_eq!(test.description, Some("Run all tests".to_string()));

    let dev = &mf.tasks[2];
    assert!(dev.flags.parallel);
    assert_eq!(dev.commands.len(), 2);

    let serve = &mf.tasks[3];
    assert_eq!(serve.flags.watch.as_ref().unwrap().glob, "src/**/*.rs");
    assert_eq!(serve.flags.ready, Some("Listening on".to_string()));

    let deploy = &mf.tasks[4];
    assert_eq!(deploy.flags.args, vec!["env"]);
    assert!(deploy.commands[0].raw.contains("{{env}}"));

    assert!(matches!(
        parse("task a:\n  echo a\ntask a:\n  echo a\n"),
        Err(ParseError::DuplicateTask { .. })
    ));
    assert!(matches!(
        parse("task a deps=[ghost]:\n  echo a\n"),
        Err(ParseError::UnknownDependency { .. })
    ));
    assert!(matches!(
        parse("task a deps=[b]:\n  echo a\ntask b deps=[a]:\n  echo b\n"),
        Err(ParseError::DependencyCycle { .. })
    ));
    assert!(matches!(
        parse("task deploy:\n  ./deploy.sh {{env}}\n"),
        Err(ParseError::UndeclaredArgument { .. })
    ));
    assert!(matches!(
        parse("project = \"oops\n"),
        Err(ParseError::UnterminatedString { .. })
    ));
}

#[test]
fn integration_doc_example() {
    let src = r#"
project = "my-app"

task build:
  cargo build --release

task test deps=[build]:
  desc = "Run all tests"
  cargo test

task dev parallel:
  cargo watch -x run
  npm run dev
"#;
    let mossfile = parse(src).unwrap();
    assert_eq!(mossfile.tasks.len(), 3);
    assert_eq!(mossfile.tasks[0].name, "build");
    assert!(mossfile.tasks[2].flags.parallel);
}

#[test]
fn integration_syntax_reference_example() {
    let src = r#"
# Mossfile — full example
project = "my-app"
shell   = "sh"

task fmt:
  desc = "Check code formatting"
  cargo fmt --check

task lint:
  desc = "Run clippy lints"
  cargo clippy -- -D warnings

task check deps=[fmt, lint]:
  desc = "Run all static checks"
  cargo check

task build deps=[check]:
  desc = "Build in release mode"
  cargo build --release

task test deps=[build]:
  desc = "Run all tests"
  cargo test --all-features

task dev parallel:
  desc = "Start all dev processes"
  cargo watch -x run
  npm run dev

task serve watch="src/**/*.rs" ready="Listening on":
  desc = "Run with auto-reload"
  cargo run

task deploy args=[env] deps=[test]:
  desc = "Deploy to an environment"
  ./scripts/deploy.sh {{env}}
"#;
    let mf = parse(src).unwrap();
    assert_eq!(mf.tasks.len(), 8);
    let graph = moss::graph::DependencyGraph::build(&mf);
    let order = graph.execution_order("deploy").unwrap();
    assert_eq!(order.len(), 6);
    let pos = |n: &str| order.iter().position(|&x| x == n).unwrap();
    assert!(pos("fmt") < pos("check"));
    assert!(pos("lint") < pos("check"));
    assert!(pos("check") < pos("build"));
    assert!(pos("build") < pos("test"));
    assert_eq!(order.last(), Some(&"deploy"));

    let runner = moss::runner::Runner::new(&mf);
    let plan = runner.plan("deploy", &["production".to_string()]).unwrap();
    assert_eq!(plan.runs.len(), 6);
    assert_eq!(plan.runs[5].commands, vec!["./scripts/deploy.sh production"]);
}
