use hyper_revamp::keymap::Command;
use hyper_revamp::palette::{items, PaletteInput, PaletteState};

#[test]
fn items_filter_by_prefix() {
    let profiles = vec!["default".to_string(), "work ssh".to_string()];
    assert_eq!(items(&profiles, "/").len(), 2);
    assert_eq!(items(&profiles, "/prof").len(), 2);
    assert_eq!(items(&profiles, "/profile w").len(), 1);
    assert_eq!(items(&profiles, "/zzz").len(), 0);
}

#[test]
fn items_carry_label_and_command() {
    let profiles = vec!["Work".to_string()];
    let list = items(&profiles, "/PROFILE w");
    assert_eq!(list.len(), 1);
    assert_eq!(list[0].label, "/profile Work");
    assert_eq!(list[0].hint, "Open a new tab in a specific profile");
    assert_eq!(list[0].command, Command::NewTabProfile("Work".to_string()));
}

fn frame(texts: &[&str]) -> PaletteInput {
    PaletteInput {
        texts: texts.iter().map(|t| t.to_string()).collect(),
        enter: false,
        backspace: false,
        ctrl_reset: false,
        down: false,
        up: false,
        esc: false,
    }
}

#[test]
fn slash_at_line_start_opens_and_enter_runs_after_navigation() {
    let profiles = vec!["default".to_string(), "work".to_string()];
    let mut p = PaletteState::new();
    assert!(!p.is_open());
    p.handle_input(&frame(&["/"]), &profiles);
    assert!(p.is_open());
    assert_eq!(p.query(), "/");
    p.handle_input(&frame(&["p"]), &profiles);
    assert_eq!(p.query(), "/p");
    let mut down = frame(&[]);
    down.down = true;
    p.handle_input(&down, &profiles);
    assert_eq!(p.selected(), 1);
    let mut enter = frame(&[]);
    enter.enter = true;
    let action = p.handle_input(&enter, &profiles);
    assert!(action.consume_enter);
    assert_eq!(action.run, Some(Command::NewTabProfile("work".to_string())));
    assert!(!p.is_open());
}

#[test]
fn slash_mid_line_does_not_open_and_enter_without_navigation_runs_nothing() {
    let profiles = vec!["default".to_string(), "work".to_string()];
    let mut p = PaletteState::new();
    p.handle_input(&frame(&["ls", "/"]), &profiles);
    assert!(!p.is_open());
    let mut enter = frame(&[]);
    enter.enter = true;
    p.handle_input(&enter, &profiles);
    p.handle_input(&frame(&["/"]), &profiles);
    assert!(p.is_open());
    let action = p.handle_input(&enter, &profiles);
    assert!(!action.consume_enter);
    assert_eq!(action.run, None);
    assert!(!p.is_open());
}

#[test]
fn enter_runs_an_unambiguous_match_without_navigation() {
    let profiles = vec!["default".to_string(), "work".to_string()];
    let mut p = PaletteState::new();
    p.handle_input(&frame(&["/"]), &profiles);
    p.handle_input(&frame(&["p", "r", "o", "f", "i", "l", "e", " ", "w"]), &profiles);
    assert!(p.is_open());
    let mut enter = frame(&[]);
    enter.enter = true;
    let action = p.handle_input(&enter, &profiles);
    assert!(action.consume_enter);
    assert_eq!(action.run, Some(Command::NewTabProfile("work".to_string())));
    assert!(!p.is_open());
}
