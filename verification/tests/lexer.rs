use moss::error::ParseError;
use moss::lexer::{Lexer, TokenKind};

fn lex(src: &str) -> Vec<TokenKind> {
    Lexer::new(src).tokenize().unwrap().into_iter().map(|t| t.kind).collect()
}

#[test]
fn test_simple_task_header() {
    let kinds = lex("task build:\n  cargo build\n");
    assert!(kinds.contains(&TokenKind::Task));
    assert!(kinds.contains(&TokenKind::Colon));
}

#[test]
fn lexer_test_parallel_flag() {
    let kinds = lex("task dev parallel:\n  npm run dev\n");
    assert!(kinds.contains(&TokenKind::Parallel));
}

#[test]
fn test_string_literal() {
    let kinds = lex("project = \"my-app\"\n");
    assert!(kinds.contains(&TokenKind::StringLit("my-app".to_string())));
}

#[test]
fn test_unterminated_string_error() {
    let result = Lexer::new("project = \"oops\n").tokenize();
    assert!(matches!(result, Err(ParseError::UnterminatedString { .. })));
}

#[test]
fn test_comment_skipped() {
    let kinds = lex("# this is a comment\ntask build:\n  cargo build\n");
    assert!(!kinds.contains(&TokenKind::Ident("#".to_string())));
    assert!(kinds.contains(&TokenKind::Task));
}

#[test]
fn test_deps_list() {
    let kinds = lex("task test deps=[build, lint]:\n  cargo test\n");
    assert!(kinds.contains(&TokenKind::Deps));
    assert!(kinds.contains(&TokenKind::LBracket));
    assert!(kinds.contains(&TokenKind::RBracket));
}

#[test]
fn lexer_command_line_is_one_token() {
    let kinds = lex("task build:\n  cargo build --release\n");
    assert_eq!(
        kinds,
        vec![
            TokenKind::Task,
            TokenKind::Ident("build".to_string()),
            TokenKind::Colon,
            TokenKind::Newline,
            TokenKind::Indent(2),
            TokenKind::Ident("cargo build --release".to_string()),
            TokenKind::Newline,
            TokenKind::Eof,
        ]
    );
}

#[test]
fn lexer_unexpected_char_error() {
    let result = Lexer::new("task build@:\n  x\n").tokenize();
    assert!(matches!(result, Err(ParseError::UnexpectedChar { ch: '@', .. })));
}

#[test]
fn lexer_empty_source_is_newline_then_eof() {
    assert_eq!(lex(""), vec![TokenKind::Newline, TokenKind::Eof]);
}

#[test]
fn lexer_comment_after_desc_is_skipped() {
    let kinds = lex("task t:\n  desc = \"Run\"  # note\n  echo\n");
    assert!(kinds.contains(&TokenKind::StringLit("Run".to_string())));
    assert!(!kinds.iter().any(|k| matches!(k, TokenKind::Ident(s) if s.contains('#'))));
}

#[test]
fn lexer_desc_line_tokens() {
    let kinds = lex("task t:\n  desc = \"Run\"  # note\n  echo\n");
    assert_eq!(
        &kinds[4..9],
        &[
            TokenKind::Indent(2),
            TokenKind::Desc,
            TokenKind::Equals,
            TokenKind::StringLit("Run".to_string()),
            TokenKind::Newline,
        ]
    );
}
