use hyper_revamp::modes::{
    selection_clipboard_step, ClipboardStep, Modifiers, SelectGesture, TermBehavior, TermModes,
};
use hyper_revamp::mouse::{
    encode_mouse, selection_kind, should_report, wheel_action, ButtonTracker, MouseButton, SelectionKind,
    WheelAction,
};

fn sgr() -> TermModes {
    TermModes {
        sgr_mouse: true,
        mouse_report_click: true,
        ..Default::default()
    }
}

fn click() -> TermModes {
    TermModes {
        mouse_report_click: true,
        ..Default::default()
    }
}

fn text(bytes: Vec<u8>) -> String {
    String::from_utf8(bytes).unwrap()
}

#[test]
fn utf8_mouse_encodes_wide_coordinates() {
    let mode = TermModes {
        utf8_mouse: true,
        mouse_report_click: true,
        ..Default::default()
    };
    let mods = Modifiers::default();
    let legacy = encode_mouse(click(), MouseButton::Left, true, false, mods, (10, 5));
    let utf8 = encode_mouse(mode, MouseButton::Left, true, false, mods, (10, 5));
    assert_eq!(utf8, legacy);
    assert_eq!(utf8, vec![0x1b, b'[', b'M', 32, 42, 37]);

    let utf8 = encode_mouse(mode, MouseButton::Left, true, false, mods, (300, 250));
    let mut want = vec![0x1b, b'[', b'M', 32];
    let mut buf = [0u8; 4];
    for coord in [300u32, 250] {
        let ch = char::from_u32(coord + 32).unwrap();
        want.extend_from_slice(ch.encode_utf8(&mut buf).as_bytes());
    }
    assert_eq!(utf8, want);
    assert_eq!(utf8.len(), 8);

    let legacy = encode_mouse(click(), MouseButton::Left, true, false, mods, (300, 250));
    assert_eq!(legacy, vec![0x1b, b'[', b'M', 32, 255, 255]);
}

#[test]
fn sgr_takes_precedence_over_utf8_mouse() {
    let mode = TermModes {
        sgr_mouse: true,
        utf8_mouse: true,
        mouse_report_click: true,
        ..Default::default()
    };
    let encoded = encode_mouse(mode, MouseButton::Left, true, false, Modifiers::default(), (300, 250));
    assert_eq!(text(encoded), "\x1b[<0;300;250M");
}

#[test]
fn sgr_click_reports_press_and_release() {
    let m = Modifiers::default();
    let press = encode_mouse(sgr(), MouseButton::Left, true, false, m, (5, 9));
    let release = encode_mouse(sgr(), MouseButton::Left, false, false, m, (5, 9));
    assert_eq!(text(press), "\x1b[<0;5;9M");
    assert_eq!(text(release), "\x1b[<0;5;9m");
}

#[test]
fn sgr_buttons_and_modifiers() {
    let m = Modifiers::default();
    assert_eq!(text(encode_mouse(sgr(), MouseButton::Middle, true, false, m, (1, 1))), "\x1b[<1;1;1M");
    assert_eq!(text(encode_mouse(sgr(), MouseButton::Right, true, false, m, (1, 1))), "\x1b[<2;1;1M");
    let ctrl = Modifiers {
        ctrl: true,
        ..Default::default()
    };
    assert_eq!(text(encode_mouse(sgr(), MouseButton::Left, true, false, ctrl, (2, 3))), "\x1b[<16;2;3M");
}

#[test]
fn motion_encodes_the_held_button() {
    let m = Modifiers::default();
    assert_eq!(text(encode_mouse(sgr(), MouseButton::Left, true, true, m, (4, 4))), "\x1b[<32;4;4M");
    assert_eq!(text(encode_mouse(sgr(), MouseButton::Right, true, true, m, (4, 4))), "\x1b[<34;4;4M");
    assert_eq!(text(encode_mouse(sgr(), MouseButton::NoButton, true, true, m, (4, 4))), "\x1b[<35;4;4M");
}

#[test]
fn legacy_encoding_offsets_and_clamps() {
    let m = Modifiers::default();
    assert_eq!(encode_mouse(click(), MouseButton::Left, true, false, m, (1, 1)), vec![0x1b, b'[', b'M', 32, 33, 33]);
    assert_eq!(encode_mouse(click(), MouseButton::Right, false, false, m, (1, 1)), vec![0x1b, b'[', b'M', 35, 33, 33]);
    let far = encode_mouse(click(), MouseButton::Left, true, false, m, (500, 500));
    assert_eq!(far[4], 255);
    assert_eq!(far[5], 255);
}

#[test]
fn motion_reporting_respects_the_mode() {
    let drag = TermModes {
        mouse_drag: true,
        ..Default::default()
    };
    let motion = TermModes {
        mouse_motion: true,
        ..Default::default()
    };
    assert!(!should_report(TermModes::default(), false, false));
    assert!(should_report(click(), false, false));
    assert!(!should_report(click(), true, true));
    assert!(should_report(drag, true, true));
    assert!(!should_report(drag, true, false));
    assert!(should_report(motion, true, false));
}

#[test]
fn wheel_buttons_report_their_codes() {
    assert_eq!(MouseButton::WheelUp.code(), 64);
    assert_eq!(MouseButton::WheelDown.code(), 65);
    assert_eq!(MouseButton::NoButton.code(), 3);
}

#[test]
fn wheel_reports_sends_arrows_or_scrolls() {
    assert_eq!(wheel_action(0, true, true, true), WheelAction::Nothing);
    assert_eq!(
        wheel_action(3, true, false, false),
        WheelAction::Report { button: MouseButton::WheelUp, count: 3 }
    );
    assert_eq!(
        wheel_action(-2, true, true, false),
        WheelAction::Report { button: MouseButton::WheelDown, count: 2 }
    );
    assert_eq!(wheel_action(2, false, true, false), WheelAction::Keys(b"\x1b[A\x1b[A".to_vec()));
    assert_eq!(wheel_action(-1, false, true, true), WheelAction::Keys(b"\x1bOB".to_vec()));
    assert_eq!(wheel_action(-4, false, false, true), WheelAction::Scroll(-4));
}

#[test]
fn releases_go_to_the_pane_that_saw_the_press() {
    let mut t = ButtonTracker::default();
    assert!(!t.on_button(MouseButton::Left, true, false), "a press outside the pane is not its own");
    assert!(!t.on_button(MouseButton::Left, false, true), "nor is the release that follows");
    assert!(t.on_button(MouseButton::Left, true, true));
    assert!(t.on_button(MouseButton::Right, true, true));
    assert_eq!(t.held(), Some(MouseButton::Right));
    assert!(t.on_button(MouseButton::Right, false, false), "released outside, still reported");
    assert_eq!(t.held(), Some(MouseButton::Left));
    assert!(t.on_button(MouseButton::Left, false, true));
    assert_eq!(t.held(), None);
}

#[test]
fn motion_is_reported_once_per_cell() {
    let mut t = ButtonTracker::default();
    assert!(t.moved_to((4, 4)));
    t.reported_at((4, 4));
    assert!(!t.moved_to((4, 4)));
    assert!(t.moved_to((5, 4)));
    t.on_button(MouseButton::Middle, true, true);
    t.reset();
    assert_eq!(t.held(), None);
    assert!(t.moved_to((4, 4)));
}

#[test]
fn press_and_release_leave_the_same_buttons_held() {
    let mut t = ButtonTracker::default();
    t.on_button(MouseButton::Left, true, true);
    t.on_button(MouseButton::Right, true, true);
    t.on_button(MouseButton::Left, true, true);
    t.on_button(MouseButton::Left, false, true);
    // One left and one right are still down.
    assert!(t.on_button(MouseButton::Left, false, true));
    assert!(t.on_button(MouseButton::Right, false, true));
    assert!(!t.on_button(MouseButton::Left, false, true));
}

#[test]
fn clicks_choose_the_selection_kind() {
    assert_eq!(selection_kind(1, false), SelectionKind::Simple);
    assert_eq!(selection_kind(1, true), SelectionKind::Block);
    assert_eq!(selection_kind(2, true), SelectionKind::Semantic);
    assert_eq!(selection_kind(3, false), SelectionKind::Lines);
}

fn behavior(copy_on_select: bool, quick_edit: bool) -> TermBehavior {
    TermBehavior { copy_on_select, quick_edit, ..Default::default() }
}

fn some(t: &str) -> Option<String> {
    Some(t.to_string())
}

fn step(copied: Option<String>, clear_selection: bool, wants_paste: bool) -> ClipboardStep {
    ClipboardStep { copied, clear_selection, wants_paste }
}

#[test]
fn a_finished_selection_becomes_the_snapshot_and_is_copied_on_select() {
    let mut snap = None;
    let r = selection_clipboard_step(&behavior(true, false), SelectGesture::DragStopped, some("ls -la"), &mut snap);
    assert_eq!(r, step(some("ls -la"), false, false));
    assert_eq!(snap, some("ls -la"));
    let mut snap = None;
    let r = selection_clipboard_step(&behavior(false, false), SelectGesture::MultiClick, some("word"), &mut snap);
    assert_eq!(r, step(None, false, false));
    assert_eq!(snap, some("word"));
}

#[test]
fn a_plain_click_clears_the_selection_and_the_snapshot() {
    let mut snap = some("old");
    let r = selection_clipboard_step(&behavior(true, true), SelectGesture::DragStopped, some(""), &mut snap);
    assert_eq!(r, step(None, true, false));
    assert_eq!(snap, None);
    // A multi-click that selected nothing leaves things as they were.
    let mut snap = some("old");
    let r = selection_clipboard_step(&behavior(true, true), SelectGesture::MultiClick, None, &mut snap);
    assert_eq!(r, step(None, false, false));
    assert_eq!(snap, some("old"));
}

#[test]
fn quick_edit_right_click_copies_or_pastes() {
    let mut snap = some("snapshot text");
    let r = selection_clipboard_step(&behavior(false, true), SelectGesture::SecondaryClick, some("live cells"), &mut snap);
    assert_eq!(r, step(some("snapshot text"), true, false));
    assert_eq!(snap, None);
    let mut snap = None;
    let r = selection_clipboard_step(&behavior(false, true), SelectGesture::SecondaryClick, some("live cells"), &mut snap);
    assert_eq!(r, step(some("live cells"), true, false));
    let mut snap = None;
    let r = selection_clipboard_step(&behavior(false, true), SelectGesture::SecondaryClick, None, &mut snap);
    assert_eq!(r, step(None, false, true));
    let mut snap = some("kept");
    let r = selection_clipboard_step(&behavior(true, false), SelectGesture::SecondaryClick, some("x"), &mut snap);
    assert_eq!(r, step(None, false, false));
    assert_eq!(snap, some("kept"));
}
