use hyper_revamp::input::{
    alt_meta_bytes, chord_is_bindable, chord_matches, encode_key, encode_paste, is_function_key,
    pane_action, rewrite_ctrl_click_as_secondary, ButtonEvent, FrameKeys, KeyCode, PaneAction,
    PaneEvent, PointerButton,
};
use hyper_revamp::keymap::KeyChord;
use hyper_revamp::modes::{Modifiers, TermModes};
use hyper_revamp::platform::Platform;

const HOST: Platform = Platform::Linux;

fn mode() -> TermModes {
    TermModes::default()
}

fn kitty() -> TermModes {
    TermModes {
        disambiguate_esc_codes: true,
        ..Default::default()
    }
}

#[test]
fn arrows_respect_app_cursor_mode() {
    let none = Modifiers::default();
    assert_eq!(encode_key(KeyCode::ArrowUp, none, mode(), HOST), Some(b"\x1b[A".to_vec()));
    let app = TermModes {
        app_cursor: true,
        ..Default::default()
    };
    assert_eq!(encode_key(KeyCode::ArrowUp, none, app, HOST), Some(b"\x1bOA".to_vec()));
}

#[test]
fn ctrl_c_is_etx() {
    let mods = Modifiers {
        ctrl: true,
        ..Default::default()
    };
    assert_eq!(encode_key(KeyCode::C, mods, mode(), HOST), Some(vec![0x03]));
}

#[test]
fn kitty_disambiguate_key_encoding() {
    let none = Modifiers::default();
    let shift = Modifiers {
        shift: true,
        ..Default::default()
    };
    let ctrl = Modifiers {
        ctrl: true,
        ..Default::default()
    };
    assert_eq!(encode_key(KeyCode::Enter, shift, kitty(), HOST), Some(b"\x1b[13;2u".to_vec()));
    assert_eq!(encode_key(KeyCode::Enter, none, kitty(), HOST), Some(b"\r".to_vec()));
    assert_eq!(encode_key(KeyCode::Tab, none, kitty(), HOST), Some(b"\t".to_vec()));
    assert_eq!(encode_key(KeyCode::Backspace, none, kitty(), HOST), Some(vec![0x7f]));
    assert_eq!(encode_key(KeyCode::Escape, none, kitty(), HOST), Some(b"\x1b[27u".to_vec()));
    assert_eq!(encode_key(KeyCode::C, ctrl, kitty(), HOST), Some(b"\x1b[99;5u".to_vec()));
    assert_eq!(encode_key(KeyCode::Enter, shift, mode(), HOST), Some(b"\x1b\r".to_vec()));
    assert_eq!(encode_key(KeyCode::Enter, none, mode(), HOST), Some(b"\r".to_vec()));
    assert_eq!(encode_key(KeyCode::C, ctrl, mode(), HOST), Some(vec![0x03]));
}

#[test]
fn alt_meta_respects_kitty_mode() {
    let alt = Modifiers {
        alt: true,
        ..Default::default()
    };
    assert_eq!(alt_meta_bytes(KeyCode::B, alt, mode()), Some(vec![0x1b, b'b']));
    assert_eq!(alt_meta_bytes(KeyCode::B, alt, kitty()), Some(b"\x1b[98;3u".to_vec()));
    let alt_shift = Modifiers {
        alt: true,
        shift: true,
        ..Default::default()
    };
    assert_eq!(alt_meta_bytes(KeyCode::B, alt_shift, mode()), Some(vec![0x1b, b'B']));
    assert_eq!(alt_meta_bytes(KeyCode::Num7, alt, mode()), Some(vec![0x1b, b'7']));
    assert_eq!(alt_meta_bytes(KeyCode::Enter, alt, mode()), None);
}

#[test]
fn bracketed_paste_wraps_and_sanitizes() {
    let bracketed = TermModes {
        bracketed_paste: true,
        ..Default::default()
    };
    let bytes = encode_paste("a\nb\x07", bracketed);
    assert_eq!(bytes, b"\x1b[200~a\rb\x1b[201~".to_vec());
    assert_eq!(encode_paste("x\r\ny\tz\u{1b}é", mode()), "x\ry\tzé".as_bytes().to_vec());
}

#[test]
fn modified_function_and_navigation_keys() {
    let ctrl = Modifiers {
        ctrl: true,
        ..Default::default()
    };
    let shift = Modifiers {
        shift: true,
        ..Default::default()
    };
    assert_eq!(encode_key(KeyCode::F5, ctrl, mode(), HOST), Some(b"\x1b[15;5~".to_vec()));
    assert_eq!(encode_key(KeyCode::F1, shift, mode(), HOST), Some(b"\x1b[1;2P".to_vec()));
    assert_eq!(encode_key(KeyCode::F1, Modifiers::default(), mode(), HOST), Some(b"\x1bOP".to_vec()));
    assert_eq!(encode_key(KeyCode::Delete, Modifiers::default(), mode(), HOST), Some(b"\x1b[3~".to_vec()));
    assert_eq!(encode_key(KeyCode::Tab, shift, mode(), HOST), Some(b"\x1b[Z".to_vec()));
    assert_eq!(encode_key(KeyCode::Backspace, shift, mode(), HOST), Some(vec![0x08]));
    assert_eq!(encode_key(KeyCode::Other, Modifiers::default(), mode(), HOST), None);
    let alt = Modifiers {
        alt: true,
        ..Default::default()
    };
    assert_eq!(encode_key(KeyCode::ArrowLeft, alt, mode(), Platform::MacOs), Some(b"\x1bb".to_vec()));
    assert_eq!(encode_key(KeyCode::ArrowLeft, alt, mode(), Platform::Linux), Some(b"\x1b[1;5D".to_vec()));
    let cmd = Modifiers {
        mac_cmd: true,
        command: true,
        ..Default::default()
    };
    assert_eq!(encode_key(KeyCode::C, cmd, mode(), Platform::MacOs), None);
}

#[test]
fn chord_binding_rules() {
    let chord = KeyChord {
        command: true,
        ctrl: false,
        alt: false,
        shift: false,
        key: "w".into(),
    };
    assert!(chord_is_bindable(&chord, Platform::MacOs));
    assert!(!chord_is_bindable(&chord, Platform::Linux));
    let cmd = Modifiers {
        mac_cmd: true,
        command: true,
        ..Default::default()
    };
    assert!(chord_matches(&chord, cmd, Platform::MacOs));
    let cmd_shift = Modifiers { shift: true, ..cmd };
    assert!(!chord_matches(&chord, cmd_shift, Platform::MacOs));
    assert!(is_function_key(&"f12".chars().collect::<Vec<_>>()));
    assert!(!is_function_key(&"f".chars().collect::<Vec<_>>()));
    assert!(!is_function_key(&"fx".chars().collect::<Vec<_>>()));
}

fn button_event(button: PointerButton, pressed: bool, ctrl: bool) -> ButtonEvent {
    ButtonEvent { button, pressed, modifiers: Modifiers { ctrl, ..Default::default() } }
}

fn button_of(e: &ButtonEvent) -> (PointerButton, bool, bool) {
    (e.button, e.pressed, e.modifiers.ctrl)
}

#[test]
fn ctrl_click_becomes_secondary_click() {
    let primary = PointerButton::Primary;
    let secondary = PointerButton::Secondary;

    // Press with ctrl converts and strips the modifier; the release
    // converts too even though ctrl was lifted in between.
    let mut converted = false;
    let mut events = vec![button_event(primary, true, true)];
    rewrite_ctrl_click_as_secondary(&mut events, &mut converted);
    assert_eq!(button_of(&events[0]), (secondary, true, false));
    assert!(converted);

    let mut events = vec![button_event(primary, false, false)];
    rewrite_ctrl_click_as_secondary(&mut events, &mut converted);
    assert_eq!(button_of(&events[0]), (secondary, false, false));
    assert!(!converted);

    // A plain click stays primary.
    let mut events = vec![button_event(primary, true, false), button_event(primary, false, false)];
    rewrite_ctrl_click_as_secondary(&mut events, &mut converted);
    assert_eq!(button_of(&events[0]), (primary, true, false));
    assert_eq!(button_of(&events[1]), (primary, false, false));
    assert!(!converted);

    // With the command modifier held, ctrl+click is left alone.
    let mut cmd = button_event(primary, true, true);
    cmd.modifiers.command = true;
    let mut events = vec![cmd];
    rewrite_ctrl_click_as_secondary(&mut events, &mut converted);
    assert_eq!(events[0].button, primary);
    assert!(!converted);
}

fn frame(mods: Modifiers, alt_is_meta: bool, altgr_composed: bool, mode: TermModes) -> FrameKeys {
    FrameKeys { mods, alt_is_meta, altgr_composed, mode, platform: HOST }
}

fn key(key: KeyCode, mods: Modifiers) -> PaneEvent {
    PaneEvent::Key { key, pressed: true, mods }
}

#[test]
fn shift_enter_is_sent_as_kitty_csi_u_while_the_protocol_is_on() {
    let shift = Modifiers { shift: true, ..Default::default() };
    let f = frame(shift, false, false, kitty());
    assert_eq!(pane_action(&key(KeyCode::Enter, shift), f), PaneAction::Write(b"\x1b[13;2u".to_vec()));
    let plain = frame(shift, false, false, mode());
    assert_eq!(pane_action(&key(KeyCode::Enter, shift), plain), PaneAction::Write(b"\x1b\r".to_vec()));
}

#[test]
fn altgr_text_is_sent_without_a_stray_escape() {
    // AltGr is ctrl+alt: its text passes through even with option as meta,
    // and the chord itself sends nothing once the text was composed.
    let altgr = Modifiers { ctrl: true, alt: true, ..Default::default() };
    let f = frame(altgr, true, true, kitty());
    assert_eq!(
        pane_action(&PaneEvent::Text("\u{a0}".to_string()), f),
        PaneAction::Write("\u{a0}".as_bytes().to_vec())
    );
    assert_eq!(pane_action(&key(KeyCode::Space, altgr), f), PaneAction::Ignore);
}

#[test]
fn text_is_held_back_for_shortcuts_and_meta() {
    let cmd = Modifiers { mac_cmd: true, ..Default::default() };
    assert_eq!(pane_action(&PaneEvent::Text("t".to_string()), frame(cmd, false, false, mode())), PaneAction::Ignore);
    let alt = Modifiers { alt: true, ..Default::default() };
    assert_eq!(pane_action(&PaneEvent::Text("∫".to_string()), frame(alt, true, false, mode())), PaneAction::Ignore);
    assert_eq!(
        pane_action(&key(KeyCode::B, alt), frame(alt, true, false, mode())),
        PaneAction::Write(b"\x1bb".to_vec())
    );
    assert_eq!(
        pane_action(&PaneEvent::Text("∫".to_string()), frame(alt, false, false, mode())),
        PaneAction::Write("∫".as_bytes().to_vec())
    );
}

#[test]
fn shift_page_keys_scroll_and_others_reach_the_pty() {
    let shift = Modifiers { shift: true, ..Default::default() };
    let f = frame(shift, false, false, mode());
    assert_eq!(pane_action(&key(KeyCode::PageUp, shift), f), PaneAction::ScrollPageUp);
    assert_eq!(pane_action(&key(KeyCode::PageDown, shift), f), PaneAction::ScrollPageDown);
    let ctrl = Modifiers { ctrl: true, ..Default::default() };
    assert_eq!(
        pane_action(&key(KeyCode::PageUp, ctrl), frame(ctrl, false, false, mode())),
        PaneAction::Write(b"\x1b[5;5~".to_vec())
    );
    let released = PaneEvent::Key { key: KeyCode::A, pressed: false, mods: Modifiers::default() };
    assert_eq!(pane_action(&released, f), PaneAction::Ignore);
    assert_eq!(pane_action(&PaneEvent::Copy, f), PaneAction::CopySelection);
    assert_eq!(pane_action(&PaneEvent::Other, f), PaneAction::Ignore);
    assert_eq!(
        pane_action(&PaneEvent::Paste("a\nb".to_string()), frame(shift, false, false, mode())),
        PaneAction::Write(b"a\rb".to_vec())
    );
}
