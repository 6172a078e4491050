use hyper_revamp::search::{scroll_delta, GridPoint, SearchState};

fn state(query: &str) -> SearchState {
    let mut s = SearchState::default();
    s.query = query.to_string();
    s
}

#[test]
fn default_search_is_literal_and_case_insensitive() {
    let s = state("a.b(c)");
    assert_eq!(s.pattern(), r"(?i)a\.b\(c\)");
    assert!(!s.open && !s.case_sensitive && !s.whole_word && !s.regex_mode);
}

#[test]
fn escaping_covers_every_meta_character() {
    let s = state(r"\.+*?()|[]{}^$#&-~%/e");
    assert_eq!(s.pattern(), r"(?i)\\\.\+\*\?\(\)\|\[\]\{\}\^\$\#\&\-\~%/e");
}

#[test]
fn options_shape_the_pattern() {
    let mut s = state("Error");
    s.case_sensitive = true;
    assert_eq!(s.pattern(), "Error");
    s.whole_word = true;
    assert_eq!(s.pattern(), r"\b(?:Error)\b");
    s.case_sensitive = false;
    assert_eq!(s.pattern(), r"(?i)\b(?:Error)\b");
    s.regex_mode = true;
    s.query = "err.r|warn".to_string();
    assert_eq!(s.pattern(), r"(?i)\b(?:err.r|warn)\b");
    s.whole_word = false;
    assert_eq!(s.pattern(), "(?i)err.r|warn");
}

#[test]
fn empty_query_searches_nothing_and_fails_nothing() {
    let mut s = state("");
    s.pattern_rejected();
    assert!(s.no_match());
    assert_eq!(s.begin_search(), None);
    assert!(!s.no_match());
    let mut t = state("x");
    assert_eq!(t.begin_search(), Some("(?i)x".to_string()));
}

#[test]
fn results_are_remembered_until_closed() {
    let mut s = state("x");
    s.open();
    assert!(s.open && s.focus_pending());
    s.focus_taken();
    assert!(!s.focus_pending());
    let m = (GridPoint { line: -3, col: 2 }, GridPoint { line: -3, col: 2 });
    s.record_result(Some(m));
    assert_eq!(s.last_match(), Some(m));
    assert!(!s.no_match());
    s.record_result(None);
    assert_eq!(s.last_match(), Some(m));
    assert!(s.no_match());
    s.close();
    assert!(!s.open);
    assert_eq!(s.last_match(), None);
}

#[test]
fn matches_off_screen_are_scrolled_into_view() {
    // 24 lines on screen, not scrolled back: lines 0..=23 are visible.
    assert_eq!(scroll_delta(5, 0, 24), None);
    assert_eq!(scroll_delta(-10, 0, 24), Some(10));
    // Scrolled back 30 lines: lines -30..=-7 are visible.
    assert_eq!(scroll_delta(-5, 30, 24), Some(-2));
    assert_eq!(scroll_delta(-30, 30, 24), None);
    assert_eq!(scroll_delta(-31, 30, 24), Some(1));
}
