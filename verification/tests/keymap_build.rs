use hyper_revamp::keymap::{parse_command, Command, KeyChord, OneOrMany};
use hyper_revamp::keymap_build::build_keymap;
use hyper_revamp::platform::Platform;

fn one(b: &str) -> OneOrMany {
    OneOrMany::One(b.to_string())
}

fn many(bs: &[&str]) -> OneOrMany {
    OneOrMany::Many(bs.iter().map(|b| b.to_string()).collect())
}

fn section(entries: Vec<(&str, OneOrMany)>) -> Vec<(String, OneOrMany)> {
    entries.into_iter().map(|(k, v)| (k.to_string(), v)).collect()
}

/// The part of the macOS default keymap these tests rely on.
fn darwin_defaults() -> Vec<(String, OneOrMany)> {
    section(vec![
        ("window:new", one("command+n")),
        ("tab:new", one("command+t")),
        ("tab:next", many(&["command+shift+]", "command+shift+right", "command+alt+right", "ctrl+tab"])),
        ("tab:prev", many(&["command+shift+[", "command+shift+left", "command+alt+left", "ctrl+shift+tab"])),
        ("tab:jump:prefix", one("command")),
        ("pane:splitRight", one("command+d")),
        ("pane:splitDown", one("command+shift+d")),
        ("pane:close", one("command+w")),
        ("editor:copy", one("command+c")),
        ("editor:paste", one("command+v")),
        ("window:devtools", one("command+alt+i")),
    ])
}

fn count(map: &[(KeyChord, Command)], cmd: &Command) -> usize {
    map.iter().filter(|(_, c)| c == cmd).count()
}

#[test]
fn jump_slots_parse_and_override_the_prefix() {
    assert_eq!(parse_command("tab:jump:1"), Some(Command::JumpTab(1)));
    assert_eq!(parse_command("tab:jump:last"), Some(Command::JumpTabLast));
    assert_eq!(parse_command("tab:jump:9"), None);

    let user = section(vec![("tab:jump:1", one("alt+1"))]);
    let map = build_keymap(&darwin_defaults(), &user, Platform::MacOs);
    let slots: Vec<_> = map.iter().filter(|(_, cmd)| *cmd == Command::JumpTab(1)).collect();
    assert_eq!(slots.len(), 1, "explicit slot replaces the expanded one");
    assert!(slots[0].0.alt && slots[0].0.key == "1");
    // The other slots still come from the prefix expansion.
    assert!(map.iter().any(|(_, cmd)| *cmd == Command::JumpTab(2)));
    assert!(map.iter().any(|(_, cmd)| *cmd == Command::JumpTabLast));
}

#[test]
fn default_darwin_keymap_builds() {
    let map = build_keymap(&darwin_defaults(), &Vec::new(), Platform::MacOs);
    assert!(map.iter().any(|(c, cmd)| *cmd == Command::NewTab && c.command && c.key == "t"));
    assert!(map.iter().any(|(_, cmd)| *cmd == Command::JumpTabLast));
    assert!(map.iter().any(|(c, cmd)| *cmd == Command::SplitRight && c.key == "d" && !c.shift));
    // multi-binding commands expand (tab:next has 4 bindings).
    assert_eq!(count(&map, &Command::NextTab), 4);
}

#[test]
fn user_overrides_replace_defaults() {
    let user = section(vec![("tab:new", one("ctrl+shift+t"))]);
    let map = build_keymap(&darwin_defaults(), &user, Platform::MacOs);
    let tab_new: Vec<_> = map.iter().filter(|(_, cmd)| *cmd == Command::NewTab).collect();
    assert_eq!(tab_new.len(), 1);
    assert!(tab_new[0].0.ctrl && tab_new[0].0.shift && !tab_new[0].0.command);
}

#[test]
fn prefix_expands_into_nine_slots_with_the_slot_number() {
    let map = build_keymap(&darwin_defaults(), &Vec::new(), Platform::MacOs);
    for n in 1..=8u8 {
        let slot: Vec<_> = map.iter().filter(|(_, cmd)| *cmd == Command::JumpTab(n)).collect();
        assert_eq!(slot.len(), 1);
        assert!(slot[0].0.command);
        assert_eq!(slot[0].0.key, n.to_string());
    }
    let last: Vec<_> = map.iter().filter(|(_, cmd)| *cmd == Command::JumpTabLast).collect();
    assert_eq!(last.len(), 1);
    assert_eq!(last[0].0.key, "9");
}

#[test]
fn unknown_commands_and_bad_bindings_are_skipped() {
    let user = section(vec![("pane:close", many(&["hyper+w", "ctrl+w"]))]);
    let map = build_keymap(&darwin_defaults(), &user, Platform::MacOs);
    // window:devtools is not a command of this app.
    assert_eq!(map.len(), 1 + 1 + 4 + 4 + 9 + 1 + 1 + 1 + 1 + 1);
    let close: Vec<_> = map.iter().filter(|(_, cmd)| *cmd == Command::ClosePane).collect();
    assert_eq!(close.len(), 1);
    assert!(close[0].0.ctrl && close[0].0.key == "w");
}

#[test]
fn entries_come_out_in_name_order() {
    let map = build_keymap(&darwin_defaults(), &Vec::new(), Platform::MacOs);
    // "editor:copy" < "editor:paste" < "pane:splitDown" < "pane:splitRight"
    // < "tab:jump:1" < … < "tab:jump:last" < "tab:new" < "tab:next" < "tab:prev"
    // < "window:new".
    let order: Vec<Command> = map.iter().map(|(_, c)| c.clone()).collect();
    assert_eq!(order[0], Command::Copy);
    assert_eq!(order[1], Command::Paste);
    assert_eq!(order[2], Command::ClosePane);
    assert_eq!(order[3], Command::SplitDown);
    assert_eq!(order[4], Command::SplitRight);
    assert_eq!(order[5], Command::JumpTab(1));
    assert_eq!(order[13], Command::JumpTabLast);
    assert_eq!(order[14], Command::NewTab);
    assert_eq!(*order.last().unwrap(), Command::NewWindow);
}
