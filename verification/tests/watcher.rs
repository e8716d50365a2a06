use moss::watcher::{glob_matches, glob_root};

#[test]
fn test_glob_root_with_wildcard() {
    assert_eq!(glob_root("src/**/*.rs"), "src");
}

#[test]
fn test_glob_root_no_wildcard() {
    assert_eq!(glob_root("src/main.rs"), "src/main.rs");
}

#[test]
fn test_glob_root_bare_wildcard() {
    assert_eq!(glob_root("*.rs"), ".");
}

#[test]
fn test_glob_matches_rs_file() {
    assert!(glob_matches("src/**/*.rs", "src/main.rs"));
}

#[test]
fn test_glob_no_match_different_ext() {
    assert!(!glob_matches("src/**/*.rs", "src/main.toml"));
}

#[test]
fn watcher_glob_root_nested() {
    assert_eq!(glob_root("a/b/c?.rs"), "a/b");
    assert_eq!(glob_root("a/b/[xy].rs"), "a/b");
    assert_eq!(glob_root("./src/*.rs"), "src");
}

#[test]
fn watcher_invalid_pattern_matches_nothing() {
    assert!(!glob_matches("a/***", "a/b"));
    assert!(glob_matches("a/*", "a/b"));
}
