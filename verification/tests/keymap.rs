use hyper_revamp::keymap::{parse_chord, parse_command, Command, KeyChord, OneOrMany};
use hyper_revamp::platform::Platform;

const HOST: Platform = Platform::Linux;

#[test]
fn parses_simple_and_aliased_chords() {
    assert_eq!(
        parse_chord("command+shift+d", HOST),
        Some(KeyChord {
            command: true,
            ctrl: false,
            alt: false,
            shift: true,
            key: "d".into()
        })
    );
    assert_eq!(parse_chord("cmd+,", HOST).unwrap().key, ",");
    assert_eq!(parse_chord("command+plus", HOST).unwrap().key, "plus");
    assert_eq!(parse_chord("command+=", HOST).unwrap().key, "=");
    assert_eq!(parse_chord("esc", HOST).unwrap().key, "esc");
}

#[test]
fn parses_mousetrap_plus_forms() {
    // "++" is mousetrap's escape for the literal '+' key.
    let chord = parse_chord("command++", HOST).expect("command++ parses");
    assert!(chord.command);
    assert_eq!(chord.key, "plus");
    assert_eq!(parse_chord("ctrl++", HOST).unwrap().key, "plus");
    assert_eq!(parse_chord("+", HOST).unwrap().key, "plus");
    assert_eq!(parse_chord("", HOST), None);
}

#[test]
fn mod_resolves_per_platform() {
    let mac = parse_chord("mod+t", Platform::MacOs).expect("mod+t parses");
    assert!(mac.command && !mac.ctrl);
    let linux = parse_chord("mod+t", Platform::Linux).expect("mod+t parses");
    assert!(linux.ctrl && !linux.command);
    let windows = parse_chord("mod+t", Platform::Windows).expect("mod+t parses");
    assert!(windows.ctrl && !windows.command);
}

#[test]
fn jump_slots_parse() {
    assert_eq!(parse_command("tab:jump:1"), Some(Command::JumpTab(1)));
    assert_eq!(parse_command("tab:jump:last"), Some(Command::JumpTabLast));
    assert_eq!(parse_command("tab:jump:9"), None);
    assert_eq!(parse_command("tab:jump:0"), None);
    assert_eq!(parse_command("tab:jump:+8"), Some(Command::JumpTab(8)));
    assert_eq!(parse_command("tab:jump:x"), None);
}

#[test]
fn editor_sequences_match_the_renderer() {
    assert_eq!(
        parse_command("editor:moveBeginningLine"),
        Some(Command::PtyBytes(b"\x1bOH"))
    );
    assert_eq!(
        parse_command("editor:deletePreviousWord"),
        Some(Command::PtyBytes(b"\x1b\x7f"))
    );
    assert_eq!(
        parse_command("editor:deleteBeginningLine"),
        Some(Command::PtyBytes(b"\x1bw"))
    );
    assert_eq!(parse_command("editor:deleteEndLine"), Some(Command::PtyBytes(b"\x0b")));
    assert_eq!(parse_command("editor:break"), Some(Command::PtyBytes(b"\x03")));
}

#[test]
fn profile_commands_parse() {
    assert_eq!(
        parse_command("tab:new:Work SSH"),
        Some(Command::NewTabProfile("Work SSH".into()))
    );
    assert_eq!(
        parse_command("pane:splitDown:dev"),
        Some(Command::SplitDownProfile("dev".into()))
    );
    assert_eq!(parse_command("window:reload"), None);
}

#[test]
fn unknown_modifiers_and_empty_keys_are_rejected() {
    assert_eq!(parse_chord("hyper+k", HOST), None);
    assert_eq!(parse_chord("ctrl+", HOST), None);
    assert_eq!(parse_chord("   ", HOST), None);
    let chord = parse_chord("  Option+Control+F5 ", HOST).unwrap();
    assert!(chord.alt && chord.ctrl && !chord.shift && !chord.command);
    assert_eq!(chord.key, "f5");
}

#[test]
fn one_or_many_lists_bindings_in_order() {
    let one = OneOrMany::One("cmd+t".into());
    assert_eq!(one.iter(), vec!["cmd+t".to_string()]);
    let many = OneOrMany::Many(vec!["a".into(), "b".into()]);
    assert_eq!(many.iter(), vec!["a".to_string(), "b".to_string()]);
}

#[test]
fn escape_binding_is_live_only_while_searching() {
    assert!(!Command::SearchClose.binding_live(false));
    assert!(Command::SearchClose.binding_live(true));
    assert!(Command::Search.binding_live(false));
    assert!(Command::NextTab.binding_live(false));
}

#[test]
fn modifier_aliases_name_the_same_chord() {
    for p in [Platform::MacOs, Platform::Linux, Platform::Windows] {
        let cmd = parse_chord("cmd+k", p).unwrap();
        assert!(cmd.command && !cmd.ctrl && !cmd.alt && !cmd.shift);
        assert_eq!(cmd.key, "k");
        assert_eq!(parse_chord("meta+k", p), Some(cmd.clone()));
        assert_eq!(parse_chord("COMMAND+k", p), Some(cmd.clone()));
        assert_eq!(parse_chord("option+k", p), parse_chord("alt+k", p));
        assert_eq!(parse_chord("control+k", p), parse_chord("ctrl+k", p));
        let expected = if p == Platform::MacOs { "cmd+k" } else { "ctrl+k" };
        assert_eq!(parse_chord("mod+k", p), parse_chord(expected, p));
    }
}
