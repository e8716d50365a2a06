use moss::ready::ReadyState;

#[test]
fn ready_signals_on_first_match_only() {
    let mut r = ReadyState::new("Listening on".to_string());
    assert!(!r.on_line("starting"));
    assert!(r.on_line("Listening on 8080"));
    assert!(!r.on_line("Listening on 8081"));
    assert!(!r.on_eof());
}

#[test]
fn ready_signals_at_eof_without_match() {
    let mut r = ReadyState::new("ready".to_string());
    assert!(!r.on_line("booting"));
    assert!(r.on_eof());
}

#[test]
fn ready_empty_pattern_matches_first_line() {
    let mut r = ReadyState::new(String::new());
    assert!(r.on_line(""));
    assert!(!r.on_eof());
}
