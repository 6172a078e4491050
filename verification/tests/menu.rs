use hyper_revamp::keymap::{Command, KeyChord};
use hyper_revamp::menu::{accel_for, accel_key};

#[test]
fn accelerator_key_names() {
    assert_eq!(accel_key("t"), Some("T".to_string()));
    assert_eq!(accel_key("plus"), Some("=".to_string()));
    assert_eq!(accel_key("["), Some("[".to_string()));
    assert_eq!(accel_key("pageup"), Some("PageUp".to_string()));
    assert_eq!(accel_key("f11"), Some("F11".to_string()));
    assert_eq!(accel_key("capslock"), None);
}

#[test]
fn first_binding_becomes_the_accelerator() {
    let keymap = vec![
        (
            KeyChord { command: true, ctrl: false, alt: false, shift: true, key: "d".into() },
            Command::SplitDown,
        ),
        (
            KeyChord { command: true, ctrl: false, alt: false, shift: false, key: "d".into() },
            Command::SplitRight,
        ),
        (
            KeyChord { command: false, ctrl: true, alt: false, shift: false, key: "d".into() },
            Command::SplitRight,
        ),
    ];
    assert_eq!(accel_for(&keymap, &Command::SplitDown), Some("Cmd+Shift+D".into()));
    assert_eq!(accel_for(&keymap, &Command::SplitRight), Some("Cmd+D".into()));
    assert_eq!(accel_for(&keymap, &Command::NewTab), None);
}
