use moss::graph::DependencyGraph;
use moss::{parse, Mossfile, RunError, Settings, Span, Task, TaskFlags, Command};

#[test]
fn test_single_task_no_deps() {
    let src = "task build:\n  cargo build\n";
    let mf = parse(src).unwrap();
    let graph = DependencyGraph::build(&mf);
    let order = graph.execution_order("build").unwrap();
    assert_eq!(order, vec!["build"]);
}

#[test]
fn test_linear_deps() {
    let src = "task lint:\n  cargo clippy\ntask build deps=[lint]:\n  cargo build\ntask test deps=[build]:\n  cargo test\n";
    let mf = parse(src).unwrap();
    let graph = DependencyGraph::build(&mf);
    let order = graph.execution_order("test").unwrap();
    let pos = |n: &str| order.iter().position(|&x| x == n).unwrap();
    assert!(pos("lint") < pos("build"));
    assert!(pos("build") < pos("test"));
    assert_eq!(order.last(), Some(&"test"));
}

#[test]
fn graph_test_unknown_task_error() {
    let src = "task build:\n  cargo build\n";
    let mf = parse(src).unwrap();
    let graph = DependencyGraph::build(&mf);
    assert!(matches!(
        graph.execution_order("nonexistent"),
        Err(RunError::TaskNotFound(_))
    ));
}

#[test]
fn test_only_reachable_tasks_included() {
    let src = "task lint:\n  cargo clippy\ntask build:\n  cargo build\n";
    let mf = parse(src).unwrap();
    let graph = DependencyGraph::build(&mf);
    let order = graph.execution_order("build").unwrap();
    assert!(!order.contains(&"lint"));
    assert!(order.contains(&"build"));
}

#[test]
fn graph_diamond_order() {
    let src = "task base:\n  echo base\ntask left deps=[base]:\n  echo left\ntask right deps=[base]:\n  echo right\ntask top deps=[left, right]:\n  echo top\n";
    let mf = parse(src).unwrap();
    let graph = DependencyGraph::build(&mf);
    let order = graph.execution_order("top").unwrap();
    assert_eq!(order.len(), 4);
    let pos = |n: &str| order.iter().position(|&x| x == n).unwrap();
    assert!(pos("base") < pos("left"));
    assert!(pos("base") < pos("right"));
    assert_eq!(order.last(), Some(&"top"));
}

fn task(name: &str, deps: &[&str]) -> Task {
    Task {
        name: name.to_string(),
        description: None,
        flags: TaskFlags {
            deps: deps.iter().map(|d| d.to_string()).collect(),
            ..TaskFlags::default()
        },
        commands: vec![Command { raw: "true".to_string(), span: Span::new(0, 0) }],
        span: Span::new(0, 0),
    }
}

#[test]
fn graph_repeated_dependency_counts_once() {
    let mf = Mossfile {
        settings: Settings::default(),
        tasks: vec![task("a", &[]), task("b", &["a", "a"]), task("c", &["b"])],
    };
    let graph = DependencyGraph::build(&mf);
    let order = graph.execution_order("c").unwrap();
    assert_eq!(order, vec!["a", "b", "c"]);
}

#[test]
fn graph_cycle_keeps_only_the_target() {
    let mf = Mossfile {
        settings: Settings::default(),
        tasks: vec![task("a", &["b"]), task("b", &["a"])],
    };
    let graph = DependencyGraph::build(&mf);
    assert_eq!(graph.execution_order("a").unwrap(), vec!["a"]);
}

#[test]
fn graph_later_declaration_wins() {
    let mf = Mossfile {
        settings: Settings::default(),
        tasks: vec![task("x", &[]), task("a", &["x"]), task("a", &[])],
    };
    let graph = DependencyGraph::build(&mf);
    assert_eq!(graph.execution_order("a").unwrap(), vec!["a"]);
}

#[test]
fn graph_unknown_dependency_is_listed() {
    let mf = Mossfile {
        settings: Settings::default(),
        tasks: vec![task("a", &["ghost"])],
    };
    let graph = DependencyGraph::build(&mf);
    assert_eq!(graph.execution_order("a").unwrap(), vec!["ghost", "a"]);
}

#[test]
fn graph_repeated_dependency_in_parsed_mossfile() {
    let src = "task lint:\n  cargo clippy\ntask build deps=[lint, lint]:\n  cargo build\ntask test deps=[build]:\n  cargo test\n";
    let mf = parse(src).unwrap();
    let graph = DependencyGraph::build(&mf);
    assert_eq!(graph.execution_order("test").unwrap(), vec!["lint", "build", "test"]);
}
