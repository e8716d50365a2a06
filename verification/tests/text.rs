use moss::error::offset_to_location;
use moss::text::contains_sub_exec;
use moss::Span;

fn chars(s: &str) -> Vec<char> {
    s.chars().collect()
}

#[test]
fn contains_sub_cases() {
    assert!(contains_sub_exec(&chars("Listening on 80"), &chars("on 8")));
    assert!(!contains_sub_exec(&chars("Listen"), &chars("Listening")));
    assert!(contains_sub_exec(&chars(""), &chars("")));
}

#[test]
fn location_of_offsets() {
    let src = "ab\ncd\n";
    let l = offset_to_location(src, 0);
    assert_eq!((l.line, l.column), (1, 1));
    let l = offset_to_location(src, 4);
    assert_eq!((l.line, l.column), (2, 2));
}

#[test]
fn span_merge_covers_both() {
    let s = Span::new(3, 5).merge(Span::new(1, 4));
    assert_eq!((s.start, s.end), (1, 5));
}
