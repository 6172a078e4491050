use hyper_revamp::grid::{GridSnapshot, SnapCell};
use hyper_revamp::links::{activation_matches, is_safe_url, link_at, link_in_matches, HoveredLink};
use hyper_revamp::modes::Modifiers;

#[test]
fn safe_url_allowlist() {
    assert!(is_safe_url("https://example.com"));
    assert!(is_safe_url("HTTP://EXAMPLE.COM"));
    assert!(!is_safe_url("javascript:alert(1)"));
    assert!(!is_safe_url("ssh://host"));
    assert!(!is_safe_url("file:///Users/x/Downloads/payload.app"));
    assert!(!is_safe_url("mailto:a@b.c"));
}

#[test]
fn activation_keys() {
    let none = Modifiers::default();
    let ctrl = Modifiers {
        ctrl: true,
        ..Default::default()
    };
    assert!(activation_matches("", none));
    assert!(activation_matches("ctrl", ctrl));
    assert!(!activation_matches("ctrl", none));
    assert!(!activation_matches("hyper", ctrl));
    let cmd = Modifiers {
        command: true,
        ..Default::default()
    };
    assert!(activation_matches("meta", cmd));
}

/// A one-row snapshot of `text`; characters listed in `wide` take two
/// columns (the second a spacer).
fn snapshot(text: &str, wide: &[char]) -> GridSnapshot {
    let mut cells = Vec::new();
    for ch in text.chars() {
        let mut cell = SnapCell::blank();
        cell.ch = ch;
        if wide.contains(&ch) {
            cell.wide = true;
            cells.push(cell);
            let mut spacer = SnapCell::blank();
            spacer.spacer = true;
            cells.push(spacer);
        } else {
            cells.push(cell);
        }
    }
    GridSnapshot { cols: cells.len(), lines: 1, cells, cursor: None, display_offset: 0, history: 0 }
}

/// The first link on a line of text, as the hover scan finds it.
fn find(text: &str) -> Option<String> {
    let snap = snapshot(text, &[]);
    (0..snap.cols).find_map(|col| link_at(&snap, 0, col)).map(|l| l.uri)
}

#[test]
fn url_detection_matches_only_http_schemes() {
    assert_eq!(find("see https://example.com/docs").as_deref(), Some("https://example.com/docs"));
    assert_eq!(find("file:///etc/passwd"), None);
    assert_eq!(find("mailto:a@b.c"), None);
}

#[test]
fn trailing_sentence_punctuation_is_not_part_of_the_link() {
    assert_eq!(find("see https://example.com/docs!").as_deref(), Some("https://example.com/docs"));
    assert_eq!(find("at https://example.com/a/b.").as_deref(), Some("https://example.com/a/b"));
    assert_eq!(find("(https://example.com/x)").as_deref(), Some("https://example.com/x"));
    assert_eq!(find("<https://example.com/y>").as_deref(), Some("https://example.com/y"));
    assert_eq!(find("https://example.com/p?q=1&r=2").as_deref(), Some("https://example.com/p?q=1&r=2"));
    // A path that legitimately ends in a slash keeps it.
    assert_eq!(find("https://example.com/dir/").as_deref(), Some("https://example.com/dir/"));
}

#[test]
fn link_covers_exactly_its_columns() {
    let snap = snapshot("go http://a.b/c now", &[]);
    assert_eq!(link_at(&snap, 0, 2), None);
    let l = link_at(&snap, 0, 3).expect("link starts at column 3");
    assert_eq!(l, HoveredLink { uri: "http://a.b/c".to_string(), row: 0, col_start: 3, col_end: 14 });
    assert!(link_at(&snap, 0, 14).is_some());
    assert_eq!(link_at(&snap, 0, 15), None);
    // Rows past the grid have no links.
    assert_eq!(link_at(&snap, 1, 3), None);
}

#[test]
fn wide_characters_shift_the_link_columns() {
    // Two double-width characters before the link take four columns.
    let snap = snapshot("日本 https://x.y", &['日', '本']);
    assert_eq!(snap.cols, 4 + 1 + 11);
    let l = link_at(&snap, 0, 5).expect("link after the wide characters");
    assert_eq!(l.uri, "https://x.y");
    assert_eq!((l.col_start, l.col_end), (5, 15));
    assert_eq!(link_at(&snap, 0, 4), None);
}

#[test]
fn matches_map_bytes_to_columns() {
    // Byte offsets 2..5 map to columns 1..3; a match starting past the map
    // ends the search.
    let bytes = vec![0, 0, 1, 2, 3, 4];
    let m = vec![(2usize, 5usize, "abc".to_string())];
    let l = link_in_matches(&m, &bytes, 7, 2).expect("column 2 is covered");
    assert_eq!((l.row, l.col_start, l.col_end), (7, 1, 3));
    assert_eq!(link_in_matches(&m, &bytes, 7, 4), None);
    let past = vec![(9usize, 10usize, "x".to_string()), (2usize, 5usize, "abc".to_string())];
    assert_eq!(link_in_matches(&past, &bytes, 7, 2), None);
}
