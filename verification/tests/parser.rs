use moss::lexer::Lexer;
use moss::parser::Parser;
use moss::{parse, ParseError, WatchConfig};

#[test]
fn test_simple_task() {
    let src = "task build:\n  cargo build --release\n";
    let mf = parse(src).unwrap();
    assert_eq!(mf.tasks.len(), 1);
    assert_eq!(mf.tasks[0].name, "build");
    assert_eq!(mf.tasks[0].commands[0].raw, "cargo build --release");
}

#[test]
fn test_settings() {
    let src = "project = \"moss\"\nshell = \"bash\"\ntask build:\n  cargo build\n";
    let mf = parse(src).unwrap();
    assert_eq!(mf.settings.project, Some("moss".to_string()));
    assert_eq!(mf.settings.shell, Some("bash".to_string()));
}

#[test]
fn parser_test_parallel_flag() {
    let src = "task dev parallel:\n  cargo watch -x run\n  npm run dev\n";
    let mf = parse(src).unwrap();
    assert!(mf.tasks[0].flags.parallel);
    assert_eq!(mf.tasks[0].commands.len(), 2);
}

#[test]
fn test_deps_flag() {
    let src = "task build:\n  cargo build\ntask test deps=[build]:\n  cargo test\n";
    let mf = parse(src).unwrap();
    assert_eq!(mf.tasks[1].flags.deps, vec!["build"]);
}

#[test]
fn test_watch_flag() {
    let src = "task serve watch=\"src/**/*.rs\":\n  cargo run\n";
    let mf = parse(src).unwrap();
    assert_eq!(
        mf.tasks[0].flags.watch,
        Some(WatchConfig {
            glob: "src/**/*.rs".to_string()
        })
    );
}

#[test]
fn test_ready_flag() {
    let src = "task serve ready=\"Listening on\":\n  cargo run\n";
    let mf = parse(src).unwrap();
    assert_eq!(mf.tasks[0].flags.ready, Some("Listening on".to_string()));
}

#[test]
fn test_args_and_placeholders() {
    let src = "task deploy args=[env]:\n  ./deploy.sh {{env}}\n";
    let mf = parse(src).unwrap();
    assert_eq!(mf.tasks[0].flags.args, vec!["env"]);
}

#[test]
fn test_description_line() {
    let src = "task test:\n  desc = \"Run all tests\"\n  cargo test\n";
    let mf = parse(src).unwrap();
    assert_eq!(mf.tasks[0].description, Some("Run all tests".to_string()));
}

#[test]
fn test_duplicate_task_error() {
    let src = "task build:\n  cargo build\ntask build:\n  cargo build\n";
    assert!(matches!(parse(src), Err(ParseError::DuplicateTask { .. })));
}

#[test]
fn test_unknown_dep_error() {
    let src = "task test deps=[build]:\n  cargo test\n";
    assert!(matches!(parse(src), Err(ParseError::UnknownDependency { .. })));
}

#[test]
fn test_cycle_detection() {
    let src = "task a deps=[b]:\n  echo a\ntask b deps=[a]:\n  echo b\n";
    assert!(matches!(parse(src), Err(ParseError::DependencyCycle { .. })));
}

#[test]
fn test_undeclared_arg_error() {
    let src = "task deploy:\n  ./deploy.sh {{env}}\n";
    assert!(matches!(parse(src), Err(ParseError::UndeclaredArgument { .. })));
}

#[test]
fn test_empty_body_error() {
    let src = "task build:\ntask test:\n  cargo test\n";
    assert!(matches!(parse(src), Err(ParseError::EmptyTaskBody { .. })));
}

#[test]
fn parser_cycle_reports_the_first_back_edge() {
    let src = "task a deps=[b]:\n  echo a\ntask b deps=[a]:\n  echo b\n";
    match parse(src) {
        Err(ParseError::DependencyCycle { cycle }) => assert_eq!(cycle, "b \u{2192} a"),
        other => panic!("expected a cycle, got {:?}", other),
    }
    let src = "task a deps=[b, c]:\n  x\ntask b:\n  x\ntask c deps=[a]:\n  x\n";
    match parse(src) {
        Err(ParseError::DependencyCycle { cycle }) => assert_eq!(cycle, "c \u{2192} a"),
        other => panic!("expected a cycle, got {:?}", other),
    }
}

#[test]
fn parser_self_dependency_is_a_cycle() {
    let src = "task a deps=[a]:\n  echo a\n";
    assert!(matches!(parse(src), Err(ParseError::DependencyCycle { .. })));
}

#[test]
fn parser_inline_comment_ends_a_command() {
    let mf = parse("task build:\n  cargo build # release later\n").unwrap();
    assert_eq!(mf.tasks[0].commands[0].raw, "cargo build");
}

#[test]
fn parser_duplicate_error_location() {
    let src = "task build:\n  cargo build\ntask build:\n  cargo build\n";
    match parse(src) {
        Err(ParseError::DuplicateTask { name, location }) => {
            assert_eq!(name, "build");
            assert_eq!(location.line, 3);
            assert_eq!(location.column, 1);
        }
        other => panic!("expected a duplicate, got {:?}", other),
    }
}

#[test]
fn parser_from_tokens() {
    let src = "task a:\n  echo a\n";
    let tokens = Lexer::new(src).tokenize().unwrap();
    let mf = Parser::new(tokens, src).parse().unwrap();
    assert_eq!(mf.tasks[0].name, "a");
    assert_eq!(mf.tasks[0].commands[0].raw, "echo a");
}

#[test]
fn parser_expected_task_name() {
    assert!(matches!(parse("task :\n  x\n"), Err(ParseError::ExpectedTaskName { .. })));
    assert!(matches!(parse("build:\n  x\n"), Err(ParseError::ExpectedTaskName { .. })));
}

#[test]
fn parser_expected_colon() {
    assert!(matches!(parse("task build\n  cargo build\n"), Err(ParseError::ExpectedColon { .. })));
}

#[test]
fn parser_unclosed_bracket() {
    assert!(matches!(parse("task b deps=[a:\n  x\n"), Err(ParseError::UnclosedBracket { .. })));
}

#[test]
fn parser_expected_equals() {
    match parse("task b watch \"x\":\n  y\n") {
        Err(ParseError::ExpectedEquals { flag, .. }) => assert_eq!(flag, "watch"),
        other => panic!("expected a missing `=`, got {:?}", other),
    }
}

#[test]
fn parser_expected_string_value() {
    match parse("task b ready=x:\n  y\n") {
        Err(ParseError::ExpectedStringValue { flag, .. }) => assert_eq!(flag, "ready"),
        other => panic!("expected a missing string, got {:?}", other),
    }
}

#[test]
fn parser_desc_with_inline_comment() {
    let mf = parse("task t:\n  desc = \"Run all\"  # shown in the list\n  cargo test\n").unwrap();
    assert_eq!(mf.tasks[0].description, Some("Run all".to_string()));
    assert_eq!(mf.tasks[0].commands[0].raw, "cargo test");
}

#[test]
fn parser_flag_order_does_not_matter() {
    let a = parse("task build:\n  x\ntask s watch=\"src/**/*.rs\" ready=\"Listening on\" deps=[build]:\n  cargo run\n").unwrap();
    let b = parse("task build:\n  x\ntask s deps=[build] ready=\"Listening on\" watch=\"src/**/*.rs\":\n  cargo run\n").unwrap();
    assert_eq!(a.tasks[1].flags, b.tasks[1].flags);
    assert_eq!(a.tasks[1].flags.deps, vec!["build"]);
    assert_eq!(a.tasks[1].flags.ready, Some("Listening on".to_string()));
}

#[test]
fn parser_desc_after_command_is_rejected() {
    match parse("task t:\n  cargo test\n  desc = \"Late\"\n") {
        Err(ParseError::DescriptionNotFirst { name, location }) => {
            assert_eq!(name, "t");
            assert_eq!(location.line, 3);
            assert_eq!(location.column, 3);
        }
        other => panic!("expected a misplaced description, got {:?}", other),
    }
}

#[test]
fn parser_second_desc_is_rejected() {
    let r = parse("task t:\n  desc = \"One\"\n  desc = \"Two\"\n  cargo test\n");
    assert!(matches!(r, Err(ParseError::DescriptionNotFirst { .. })));
}

#[test]
fn parser_desc_alone_is_a_body() {
    let mf = parse("task t:\n  desc = \"Only a description\"\n").unwrap();
    assert_eq!(mf.tasks[0].description, Some("Only a description".to_string()));
    assert!(mf.tasks[0].commands.is_empty());
}

#[test]
fn parser_all_flags_in_any_order() {
    let a = parse("task b:\n  x\ntask t parallel watch=\"src/*\" ready=\"up\" deps=[b] args=[env]:\n  run {{env}}\n").unwrap();
    let c = parse("task b:\n  x\ntask t args=[env] deps=[b] ready=\"up\" parallel watch=\"src/*\":\n  run {{env}}\n").unwrap();
    assert_eq!(a.tasks[1].flags, c.tasks[1].flags);
    assert!(c.tasks[1].flags.parallel);
    assert_eq!(c.tasks[1].flags.watch, Some(WatchConfig { glob: "src/*".to_string() }));
    assert_eq!(c.tasks[1].flags.args, vec!["env"]);
}
